//! Chat over datagrams: the announcement of a nickname, the register of who is where,
//! and the reading of a line typed to send a message.
use vstd::prelude::*;
use crate::tabla::{
    claves_distintas, lemma_mapa_actualizar, lemma_mapa_agregar, lemma_mapa_contiene,
    lemma_mapa_fuera, lemma_mapa_no_contiene, mapa_de,
};
use crate::texto::{a_string, caracteres};

verus! {

/// What starts a nickname announcement: `NICK:`.
pub open spec fn prefijo_anuncio() -> Seq<char> {
    seq!['N', 'I', 'C', 'K', ':']
}

fn prefijo() -> (r: Vec<char>)
    ensures
        r@ == prefijo_anuncio(),
{
    let mut r: Vec<char> = Vec::new();
    r.push('N');
    r.push('I');
    r.push('C');
    r.push('K');
    r.push(':');
    assert(r@ =~= prefijo_anuncio());
    r
}

/// The message that announces `nickname`: `NICK:` followed by the nickname.
pub fn mensaje_anuncio(nickname: &str) -> (r: String)
    ensures
        r@ == prefijo_anuncio() + nickname@,
{
    let mut v = prefijo();
    let cs = caracteres(nickname);
    let mut i: usize = 0;
    while i < cs.len()
        invariant
            i <= cs.len(),
            cs@ == nickname@,
            v@ == prefijo_anuncio() + cs@.take(i as int),
        decreases cs.len() - i,
    {
        v.push(cs[i]);
        assert(v@ =~= prefijo_anuncio() + cs@.take(i + 1));
        i = i + 1;
    }
    assert(cs@.take(cs.len() as int) =~= cs@);
    a_string(&v)
}

/// What a received message is.
#[derive(PartialEq, Eq, Debug)]
pub enum MensajeRecibido {
    /// A nickname announcement, with the nickname.
    Anuncio(String),
    /// Any other message.
    Texto,
}

/// The nickname a message announces: what follows `NICK:` when the message starts with it.
pub open spec fn nickname_anunciado(m: Seq<char>) -> Option<Seq<char>> {
    if m.len() >= prefijo_anuncio().len() && m.take(prefijo_anuncio().len() as int)
        == prefijo_anuncio() {
        Some(m.skip(prefijo_anuncio().len() as int))
    } else {
        None
    }
}

/// Tells a nickname announcement (a message that starts with `NICK:`) from any other
/// message, and takes out the nickname.
pub fn clasificar_mensaje(mensaje: &str) -> (r: MensajeRecibido)
    ensures
        match nickname_anunciado(mensaje@) {
            Some(n) => r matches MensajeRecibido::Anuncio(s) && s@ == n,
            None => r == MensajeRecibido::Texto,
        },
{
    let cs = caracteres(mensaje);
    let p = prefijo();
    if cs.len() < p.len() {
        return MensajeRecibido::Texto;
    }
    let mut i: usize = 0;
    while i < p.len()
        invariant
            i <= p.len() <= cs.len(),
            p@ == prefijo_anuncio(),
            cs@ == mensaje@,
            forall|k: int| 0 <= k < i ==> cs@[k] == p@[k],
        decreases p.len() - i,
    {
        if cs[i] != p[i] {
            assert(cs@.take(5)[i as int] != prefijo_anuncio()[i as int]);
            return MensajeRecibido::Texto;
        }
        i = i + 1;
    }
    assert(cs@.take(5) =~= prefijo_anuncio());
    let mut resto: Vec<char> = Vec::new();
    let mut j: usize = p.len();
    while j < cs.len()
        invariant
            5 <= j <= cs.len(),
            cs@ == mensaje@,
            resto@ == cs@.subrange(5, j as int),
        decreases cs.len() - j,
    {
        resto.push(cs[j]);
        assert(resto@ =~= cs@.subrange(5, j + 1));
        j = j + 1;
    }
    assert(resto@ =~= cs@.skip(5));
    MensajeRecibido::Anuncio(a_string(&resto))
}

/// The register of users: for each nickname, where it was last announced from.
pub struct Registro<A> {
    usuarios: Vec<(String, A)>,
}

/// Entries of a register as nicknames and addresses.
pub open spec fn pares_registro<A>(s: Seq<(String, A)>) -> Seq<(Seq<char>, A)> {
    s.map_values(|e: (String, A)| (e.0@, e.1))
}

impl<A> View for Registro<A> {
    type V = Map<Seq<char>, A>;

    closed spec fn view(&self) -> Map<Seq<char>, A> {
        mapa_de(pares_registro(self.usuarios@))
    }
}

impl<A: Copy> Registro<A> {
    /// No nickname appears twice.
    pub closed spec fn bien_formado(&self) -> bool {
        claves_distintas(pares_registro(self.usuarios@))
    }

    /// A register with nobody in it.
    pub fn new() -> (r: Self)
        ensures
            r.bien_formado(),
            r@ == Map::<Seq<char>, A>::empty(),
    {
        let r = Registro { usuarios: Vec::new() };
        assert(pares_registro(r.usuarios@) =~= Seq::<(Seq<char>, A)>::empty());
        r
    }

    fn posicion(&self, nickname: &Vec<char>) -> (r: Option<usize>)
        requires
            self.bien_formado(),
        ensures
            match r {
                Some(k) => k < self.usuarios.len() && self.usuarios@[k as int].0@ == nickname@
                    && self@.contains_key(nickname@) && self@[nickname@]
                    == self.usuarios@[k as int].1,
                None => !self@.contains_key(nickname@),
            },
    {
        let ghost ps = pares_registro(self.usuarios@);
        let mut i: usize = 0;
        while i < self.usuarios.len()
            invariant
                i <= self.usuarios.len(),
                self.bien_formado(),
                ps == pares_registro(self.usuarios@),
                forall|k: int| 0 <= k < i ==> ps[k].0 != nickname@,
            decreases self.usuarios.len() - i,
        {
            let nombre = caracteres(self.usuarios[i].0.as_str());
            if crate::texto::mismos_caracteres(&nombre, nickname) {
                proof {
                    lemma_mapa_contiene(ps, i as int);
                }
                return Some(i);
            }
            i = i + 1;
        }
        proof {
            lemma_mapa_no_contiene(ps, nickname@);
        }
        None
    }

    /// Where `nickname` was last announced from, if it was.
    pub fn buscar(&self, nickname: &str) -> (r: Option<A>)
        requires
            self.bien_formado(),
        ensures
            match r {
                Some(a) => self@.contains_key(nickname@) && a == self@[nickname@],
                None => !self@.contains_key(nickname@),
            },
    {
        let cs = caracteres(nickname);
        match self.posicion(&cs) {
            Some(k) => Some(self.usuarios[k].1),
            None => None,
        }
    }

    /// Records that `nickname` is at `origen`, replacing where it was before.
    pub fn registrar(&mut self, nickname: String, origen: A)
        requires
            old(self).bien_formado(),
        ensures
            final(self).bien_formado(),
            final(self)@ == old(self)@.insert(nickname@, origen),
    {
        let ghost ps = pares_registro(self.usuarios@);
        let cs = caracteres(nickname.as_str());
        match self.posicion(&cs) {
            Some(k) => {
                proof {
                    lemma_mapa_actualizar(ps, k as int, origen);
                }
                self.usuarios.set(k, (nickname, origen));
                assert(pares_registro(self.usuarios@) =~= ps.update(k as int, (ps[k as int].0, origen)));
            },
            None => {
                let ghost n = nickname@;
                self.usuarios.push((nickname, origen));
                proof {
                    lemma_mapa_agregar(ps, n, origen);
                    assert(pares_registro(self.usuarios@) =~= ps.push((n, origen)));
                    let qs = pares_registro(self.usuarios@);
                    assert forall|i: int, j: int|
                        0 <= i < qs.len() && 0 <= j < qs.len() && i != j implies qs[i].0 != qs[j].0 by {
                        if i == ps.len() {
                            lemma_mapa_fuera(ps, n, j);
                        } else if j == ps.len() {
                            lemma_mapa_fuera(ps, n, i);
                        }
                    }
                }
            },
        }
    }

    /// Handles a received message: a nickname announcement records the nickname at
    /// `origen` and gives the nickname back; any other message changes nothing.
    pub fn procesar_mensaje(&mut self, mensaje: &str, origen: A) -> (r: Option<String>)
        requires
            old(self).bien_formado(),
        ensures
            final(self).bien_formado(),
            match nickname_anunciado(mensaje@) {
                Some(n) => r matches Some(s) && s@ == n && final(self)@ == old(self)@.insert(
                    n,
                    origen,
                ),
                None => r is None && final(self)@ == old(self)@,
            },
    {
        match clasificar_mensaje(mensaje) {
            MensajeRecibido::Anuncio(nickname) => {
                let copia = nickname.clone();
                self.registrar(nickname, origen);
                Some(copia)
            },
            MensajeRecibido::Texto => None,
        }
    }
}

/// Where the first space of `e` is, or its length when it has none.
pub open spec fn primer_espacio(e: Seq<char>) -> int
    decreases e.len(),
{
    if e.len() == 0 {
        0
    } else if e[0] == ' ' {
        0
    } else {
        1 + primer_espacio(e.drop_first())
    }
}

/// The nickname and the message of a typed line `<nickname> <mensaje>`: the line split at
/// its first space (as `splitn(2, ' ')` splits it), when both parts are non-empty.
pub open spec fn partes_de_entrada(e: Seq<char>) -> Option<(Seq<char>, Seq<char>)> {
    let i = primer_espacio(e);
    let destino = e.take(i);
    let mensaje = if i < e.len() {
        e.skip(i + 1)
    } else {
        Seq::empty()
    };
    if destino.len() == 0 || mensaje.len() == 0 {
        None
    } else {
        Some((destino, mensaje))
    }
}

proof fn lemma_primer_espacio(e: Seq<char>)
    ensures
        0 <= primer_espacio(e) <= e.len(),
        forall|k: int| 0 <= k < primer_espacio(e) ==> e[k] != ' ',
        primer_espacio(e) < e.len() ==> e[primer_espacio(e)] == ' ',
    decreases e.len(),
{
    if e.len() > 0 && e[0] != ' ' {
        lemma_primer_espacio(e.drop_first());
        assert forall|k: int| 0 <= k < primer_espacio(e) implies e[k] != ' ' by {
            if k > 0 {
                assert(e[k] == e.drop_first()[k - 1]);
            }
        }
    }
}

/// An announcement gives back exactly the nickname written after `NICK:`, and a message
/// announces a nickname only when it is `NICK:` followed by that nickname.
pub proof fn ley_anuncio_ida_y_vuelta(n: Seq<char>, m: Seq<char>)
    ensures
        nickname_anunciado(prefijo_anuncio() + n) == Some(n),
        nickname_anunciado(m) matches Some(x) ==> m == prefijo_anuncio() + x,
        nickname_anunciado(m) is None ==> forall|x: Seq<char>| m != prefijo_anuncio() + x,
{
    let p = prefijo_anuncio();
    assert((p + n).take(p.len() as int) =~= p);
    assert((p + n).skip(p.len() as int) =~= n);
    if m.len() >= p.len() && m.take(p.len() as int) == p {
        assert(m =~= p + m.skip(p.len() as int));
    }
    assert forall|x: Seq<char>| nickname_anunciado(m) is None implies m != p + x by {
        if m == p + x {
            assert((p + x).take(p.len() as int) =~= p);
        }
    }
}

/// A typed line is read as `<nickname> <mensaje>` exactly when it is a non-empty
/// nickname with no space, one space, and a non-empty message: the nickname and the
/// message come back unchanged.
pub proof fn ley_partes_de_entrada(e: Seq<char>, d: Seq<char>, m: Seq<char>)
    ensures
        partes_de_entrada(e) matches Some((x, y)) ==> e == x.push(' ') + y && x.len() > 0 && y.len()
            > 0 && !x.contains(' '),
        d.len() > 0 && m.len() > 0 && !d.contains(' ') ==> partes_de_entrada(d.push(' ') + m)
            == Some((d, m)),
        partes_de_entrada(e) is None ==> forall|x: Seq<char>, y: Seq<char>|
            x.len() > 0 && y.len() > 0 && !x.contains(' ') ==> e != x.push(' ') + y,
{
    lemma_primer_espacio(e);
    let i = primer_espacio(e);
    if partes_de_entrada(e) is Some {
        assert(e =~= e.take(i).push(' ') + e.skip(i + 1));
        if e.take(i).contains(' ') {
            let k = choose|k: int| 0 <= k < e.take(i).len() && e.take(i)[k] == ' ';
            assert(e[k] == ' ');
        }
    }
    assert forall|x: Seq<char>, y: Seq<char>|
        x.len() > 0 && y.len() > 0 && !x.contains(' ') && e == x.push(' ') + y implies partes_de_entrada(
        e,
    ) == Some((x, y)) by {
        let j = x.len() as int;
        assert(e[j] == ' ');
        assert forall|k: int| 0 <= k < j implies e[k] != ' ' by {
            assert(e[k] == x[k]);
        }
        assert(i == j);
        assert(e.take(i) =~= x);
        assert(e.skip(i + 1) =~= y);
    }
    if d.len() > 0 && m.len() > 0 && !d.contains(' ') {
        let f = d.push(' ') + m;
        lemma_primer_espacio(f);
        let j = d.len() as int;
        assert(f[j] == ' ');
        assert forall|k: int| 0 <= k < j implies f[k] != ' ' by {
            assert(f[k] == d[k]);
        }
        assert(primer_espacio(f) == j);
        assert(f.take(j) =~= d);
        assert(f.skip(j + 1) =~= m);
    }
}

/// Splits a typed line `<nickname> <mensaje>` at its first space; `None` when either
/// part is empty.
pub fn interpretar_entrada(entrada: &str) -> (r: Option<(String, String)>)
    ensures
        match partes_de_entrada(entrada@) {
            Some((d, m)) => r matches Some((a, b)) && a@ == d && b@ == m,
            None => r is None,
        },
{
    let cs = caracteres(entrada);
    proof {
        lemma_primer_espacio(cs@);
    }
    let mut destino: Vec<char> = Vec::new();
    let mut i: usize = 0;
    while i < cs.len() && cs[i] != ' '
        invariant
            i <= cs.len(),
            cs@ == entrada@,
            destino@ == cs@.take(i as int),
            i <= primer_espacio(cs@),
            0 <= primer_espacio(cs@) <= cs@.len(),
            forall|k: int| 0 <= k < primer_espacio(cs@) ==> cs@[k] != ' ',
            primer_espacio(cs@) < cs@.len() ==> cs@[primer_espacio(cs@)] == ' ',
        decreases cs.len() - i,
    {
        destino.push(cs[i]);
        assert(destino@ =~= cs@.take(i + 1));
        i = i + 1;
    }
    assert(i == primer_espacio(cs@));
    let mut mensaje: Vec<char> = Vec::new();
    if i < cs.len() {
        let mut j: usize = i + 1;
        while j < cs.len()
            invariant
                i < j <= cs.len(),
                cs@ == entrada@,
                mensaje@ == cs@.subrange(i + 1, j as int),
            decreases cs.len() - j,
        {
            mensaje.push(cs[j]);
            assert(mensaje@ =~= cs@.subrange(i + 1, j + 1));
            j = j + 1;
        }
        assert(mensaje@ =~= cs@.skip(i + 1));
    } else {
        assert(mensaje@ =~= Seq::<char>::empty());
    }
    if destino.len() == 0 || mensaje.len() == 0 {
        None
    } else {
        Some((a_string(&destino), a_string(&mensaje)))
    }
}

/// What to do with a typed line.
pub enum Envio<A> {
    /// The line is not `<nickname> <mensaje>`.
    FormatoInvalido,
    /// Nobody announced the nickname.
    UsuarioDesconocido(String),
    /// Send the message to the address.
    Enviar(A, String),
}

/// Decides what a typed line asks for: the format error when it is not
/// `<nickname> <mensaje>`, an unknown user when the nickname is not registered, and
/// otherwise the message to send and where to.
pub fn preparar_envio<A: Copy>(usuarios: &Registro<A>, entrada: &str) -> (r: Envio<A>)
    requires
        usuarios.bien_formado(),
    ensures
        match partes_de_entrada(entrada@) {
            None => r is FormatoInvalido,
            Some((d, m)) => if usuarios@.contains_key(d) {
                r matches Envio::Enviar(a, s) && a == usuarios@[d] && s@ == m
            } else {
                r matches Envio::UsuarioDesconocido(n) && n@ == d
            },
        },
{
    match interpretar_entrada(entrada) {
        None => Envio::FormatoInvalido,
        Some((destino, mensaje)) => match usuarios.buscar(destino.as_str()) {
            Some(a) => Envio::Enviar(a, mensaje),
            None => Envio::UsuarioDesconocido(destino),
        },
    }
}

} // verus!
