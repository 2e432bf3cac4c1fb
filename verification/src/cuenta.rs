//! A bank account with an integer balance.
use vstd::prelude::*;

verus! {

/// The balance after depositing `monto` on a balance `saldo`.
pub open spec fn tras_deposito(saldo: int, monto: int) -> int {
    saldo + monto
}

/// Whether a withdrawal of `monto` goes through on a balance `saldo`: the funds suffice.
pub open spec fn extraccion_posible(saldo: int, monto: int) -> bool {
    saldo >= monto
}

/// The balance after asking to withdraw `monto` from a balance `saldo`: reduced by the
/// amount when the funds suffice, unchanged otherwise.
pub open spec fn tras_extraccion(saldo: int, monto: int) -> int {
    if extraccion_posible(saldo, monto) {
        saldo - monto
    } else {
        saldo
    }
}

/// A bank account with an integer balance.
pub struct Account(i32);

impl Account {
    /// The balance of the account.
    pub closed spec fn saldo(&self) -> int {
        self.0 as int
    }

    /// An account with the given opening balance.
    pub fn new(saldo_inicial: i32) -> (r: Self)
        ensures
            r.saldo() == saldo_inicial,
    {
        Account(saldo_inicial)
    }

    /// Deposits `amount` in the account.
    pub fn deposit(&mut self, amount: i32)
        requires
            i32::MIN <= tras_deposito(old(self).saldo(), amount as int) <= i32::MAX,
        ensures
            final(self).saldo() == tras_deposito(old(self).saldo(), amount as int),
    {
        self.0 = self.0 + amount;
    }

    /// Withdraws `amount` from the account when the funds suffice, and says whether it
    /// did; otherwise the balance stays as it was.
    pub fn withdraw(&mut self, amount: i32) -> (r: bool)
        requires
            tras_extraccion(old(self).saldo(), amount as int) <= i32::MAX,
        ensures
            r == extraccion_posible(old(self).saldo(), amount as int),
            final(self).saldo() == tras_extraccion(old(self).saldo(), amount as int),
    {
        if self.0 >= amount {
            self.0 = self.0 - amount;
            true
        } else {
            false
        }
    }

    /// The current balance of the account.
    pub fn balance(&self) -> (r: i32)
        ensures
            r == self.saldo(),
    {
        self.0
    }
}

/// On a balance that is not negative, withdrawing what was just deposited goes through
/// and gives back the balance there was before.
pub proof fn ley_deposito_y_extraccion(saldo: int, monto: int)
    requires
        saldo >= 0,
    ensures
        extraccion_posible(tras_deposito(saldo, monto), monto),
        tras_extraccion(tras_deposito(saldo, monto), monto) == saldo,
{
}

/// A withdrawal never leaves a balance below zero when it goes through, and a refused
/// one changes nothing.
pub proof fn ley_extraccion_sin_saldo_negativo(saldo: int, monto: int)
    ensures
        extraccion_posible(saldo, monto) ==> tras_extraccion(saldo, monto) >= 0,
        !extraccion_posible(saldo, monto) ==> tras_extraccion(saldo, monto) == saldo,
{
}

} // verus!
