//! Hangman: the word shown to the player, the handling of each guessed letter, and the
//! state of a game from one guess to the next.
use vstd::prelude::*;
use crate::texto::{a_string, caracteres, recortado, recortar, Recorte};

verus! {

/// Attempts a game starts with.
pub const INTENTOS_INICIALES: i32 = 5;

/// How a game can be lost.
#[derive(Clone, Copy, PartialEq, Eq, Structural, Debug)]
pub enum ErrorJuego {
    /// No attempts are left.
    IntentosAgotados,
}

/// The word as the player sees it: each letter already guessed in its place, every other
/// letter as `_`.
pub open spec fn enmascarada(palabra: Seq<char>, adivinadas: Seq<char>) -> Seq<char> {
    palabra.map_values(|c: char| if adivinadas.contains(c) { c } else { '_' })
}

/// Whether `c` is among the characters of `v`.
fn contiene_letra(v: &Vec<char>, c: char) -> (r: bool)
    ensures
        r == v@.contains(c),
{
    let mut i: usize = 0;
    while i < v.len()
        invariant
            i <= v.len(),
            forall|k: int| 0 <= k < i ==> v@[k] != c,
        decreases v.len() - i,
    {
        if v[i] == c {
            return true;
        }
        i = i + 1;
    }
    false
}

/// The word as the player sees it: each letter already guessed in its place, every
/// other letter as `_`.
pub fn mostrar_palabra(palabra: String, letras_adivinadas: Vec<char>) -> (r: String)
    ensures
        r@ == enmascarada(palabra@, letras_adivinadas@),
{
    let cs = caracteres(palabra.as_str());
    let mut v: Vec<char> = Vec::new();
    let mut i: usize = 0;
    while i < cs.len()
        invariant
            i <= cs.len(),
            cs@ == palabra@,
            v@ == enmascarada(palabra@, letras_adivinadas@).take(i as int),
        decreases cs.len() - i,
    {
        let c = cs[i];
        if contiene_letra(&letras_adivinadas, c) {
            v.push(c);
        } else {
            v.push('_');
        }
        assert(v@ =~= enmascarada(palabra@, letras_adivinadas@).take(i + 1));
        i = i + 1;
    }
    assert(v@ =~= enmascarada(palabra@, letras_adivinadas@));
    a_string(&v)
}

/// The letter that a line of input gives: the line without surrounding whitespace, when
/// it is exactly one character.
pub open spec fn letra_de_linea(linea: Seq<char>) -> Option<char> {
    let t = recortado(linea, Recorte::Blancos);
    if t.len() == 1 {
        Some(t[0])
    } else {
        None
    }
}

/// Reads the letter that a line of input gives: `Some` of it when the line, without
/// surrounding whitespace, is exactly one character, `None` otherwise.
pub fn interpretar_letra(linea: &str) -> (r: Option<char>)
    ensures
        r == letra_de_linea(linea@),
{
    let cs = caracteres(linea);
    let t = recortar(&cs, Recorte::Blancos);
    if t.len() == 1 {
        Some(t[0])
    } else {
        None
    }
}

/// Records a letter that is in the word; says whether it was new (a repeated letter
/// changes nothing).
pub fn procesar_acierto(letra: char, letras_adivinadas: &mut Vec<char>) -> (nueva: bool)
    ensures
        nueva == !old(letras_adivinadas)@.contains(letra),
        final(letras_adivinadas)@ == (if nueva {
            old(letras_adivinadas)@.push(letra)
        } else {
            old(letras_adivinadas)@
        }),
{
    if !contiene_letra(letras_adivinadas, letra) {
        letras_adivinadas.push(letra);
        true
    } else {
        false
    }
}

/// Records a letter that is not in the word: when it was not tried before it is kept and
/// costs one attempt; says whether it was new (a repeated letter changes nothing).
pub fn procesar_fallo(letra: char, letras_falladas: &mut Vec<char>, intentos: &mut i32) -> (nueva: bool)
    requires
        !old(letras_falladas)@.contains(letra) ==> *old(intentos) > i32::MIN,
    ensures
        nueva == !old(letras_falladas)@.contains(letra),
        final(letras_falladas)@ == (if nueva {
            old(letras_falladas)@.push(letra)
        } else {
            old(letras_falladas)@
        }),
        *final(intentos) == (if nueva {
            *old(intentos) - 1
        } else {
            *old(intentos) as int
        }),
{
    if !contiene_letra(letras_falladas, letra) {
        letras_falladas.push(letra);
        *intentos = *intentos - 1;
        true
    } else {
        false
    }
}

/// What a guessed letter turned out to be.
#[derive(Clone, Copy, PartialEq, Eq, Structural, Debug)]
pub enum Jugada {
    /// The letter is in the word; `nueva` says whether it had not been guessed before.
    Acierto { nueva: bool },
    /// The letter is not in the word; `nueva` says whether it had not been tried before.
    Fallo { nueva: bool },
}

/// Handles a guessed letter: recorded as guessed when the word holds it, as failed
/// otherwise (see `procesar_acierto` and `procesar_fallo`).
pub fn procesar_letra(
    letra: char,
    palabra: String,
    letras_adivinadas: &mut Vec<char>,
    letras_falladas: &mut Vec<char>,
    intentos: &mut i32,
) -> (r: Jugada)
    requires
        !palabra@.contains(letra) && !old(letras_falladas)@.contains(letra) ==> *old(intentos)
            > i32::MIN,
    ensures
        palabra@.contains(letra) ==> {
            &&& r == Jugada::Acierto { nueva: !old(letras_adivinadas)@.contains(letra) }
            &&& final(letras_adivinadas)@ == (if !old(letras_adivinadas)@.contains(letra) {
                old(letras_adivinadas)@.push(letra)
            } else {
                old(letras_adivinadas)@
            })
            &&& final(letras_falladas)@ == old(letras_falladas)@
            &&& *final(intentos) == *old(intentos)
        },
        !palabra@.contains(letra) ==> {
            &&& r == Jugada::Fallo { nueva: !old(letras_falladas)@.contains(letra) }
            &&& final(letras_adivinadas)@ == old(letras_adivinadas)@
            &&& final(letras_falladas)@ == (if !old(letras_falladas)@.contains(letra) {
                old(letras_falladas)@.push(letra)
            } else {
                old(letras_falladas)@
            })
            &&& *final(intentos) == (if !old(letras_falladas)@.contains(letra) {
                *old(intentos) - 1
            } else {
                *old(intentos) as int
            })
        },
{
    let cs = caracteres(palabra.as_str());
    if contiene_letra(&cs, letra) {
        let nueva = procesar_acierto(letra, letras_adivinadas);
        Jugada::Acierto { nueva }
    } else {
        let nueva = procesar_fallo(letra, letras_falladas, intentos);
        Jugada::Fallo { nueva }
    }
}

/// The word is shown whole exactly when each of its letters has been guessed or is
/// itself a `_`.
pub proof fn ley_palabra_completa(palabra: Seq<char>, adivinadas: Seq<char>)
    ensures
        enmascarada(palabra, adivinadas) == palabra <==> forall|i: int|
            0 <= i < palabra.len() ==> palabra[i] == '_' || adivinadas.contains(#[trigger] palabra[i]),
{
    if enmascarada(palabra, adivinadas) == palabra {
        assert forall|i: int| 0 <= i < palabra.len() implies palabra[i] == '_' || adivinadas.contains(
            #[trigger] palabra[i],
        ) by {
            assert(enmascarada(palabra, adivinadas)[i] == palabra[i]);
        }
    }
    if forall|i: int|
        0 <= i < palabra.len() ==> palabra[i] == '_' || adivinadas.contains(#[trigger] palabra[i]) {
        assert(enmascarada(palabra, adivinadas) =~= palabra);
    }
}

/// What a game holds: the word, the letters guessed and failed so far, and the attempts left.
pub struct VistaPartida {
    pub palabra: Seq<char>,
    pub adivinadas: Seq<char>,
    pub falladas: Seq<char>,
    pub intentos: int,
}

/// A game of hangman between one guess and the next.
pub struct Partida {
    palabra: String,
    letras_adivinadas: Vec<char>,
    letras_falladas: Vec<char>,
    intentos: i32,
}

impl View for Partida {
    type V = VistaPartida;

    closed spec fn view(&self) -> VistaPartida {
        VistaPartida {
            palabra: self.palabra@,
            adivinadas: self.letras_adivinadas@,
            falladas: self.letras_falladas@,
            intentos: self.intentos as int,
        }
    }
}

/// Whether a game is consistent: every attempt lost is a failed letter, no letter is
/// recorded twice, the guessed letters are in the word and the failed ones are not.
pub open spec fn partida_valida(p: VistaPartida) -> bool {
    &&& p.intentos == INTENTOS_INICIALES - p.falladas.len()
    &&& p.intentos >= 0
    &&& p.adivinadas.no_duplicates()
    &&& p.falladas.no_duplicates()
    &&& forall|i: int| 0 <= i < p.adivinadas.len() ==> p.palabra.contains(#[trigger] p.adivinadas[i])
    &&& forall|i: int| 0 <= i < p.falladas.len() ==> !p.palabra.contains(#[trigger] p.falladas[i])
}

/// Whether the whole word is shown.
pub open spec fn ganada(p: VistaPartida) -> bool {
    enmascarada(p.palabra, p.adivinadas) == p.palabra
}

/// The game after a guess of `letra`: a letter of the word is added to the guessed ones,
/// any other to the failed ones at the cost of one attempt; a letter tried before changes
/// nothing.
pub open spec fn tras_letra(p: VistaPartida, letra: char) -> VistaPartida {
    if p.palabra.contains(letra) {
        VistaPartida {
            adivinadas: if p.adivinadas.contains(letra) {
                p.adivinadas
            } else {
                p.adivinadas.push(letra)
            },
            ..p
        }
    } else if p.falladas.contains(letra) {
        p
    } else {
        VistaPartida { falladas: p.falladas.push(letra), intentos: p.intentos - 1, ..p }
    }
}

impl Partida {
    /// A new game for `palabra`, with nothing guessed and every attempt left.
    pub fn nueva(palabra: String) -> (r: Self)
        ensures
            partida_valida(r@),
            r@ == (VistaPartida {
                palabra: palabra@,
                adivinadas: Seq::empty(),
                falladas: Seq::empty(),
                intentos: INTENTOS_INICIALES as int,
            }),
    {
        let r = Partida {
            palabra,
            letras_adivinadas: Vec::new(),
            letras_falladas: Vec::new(),
            intentos: INTENTOS_INICIALES,
        };
        assert(r.letras_adivinadas@ =~= Seq::<char>::empty());
        r
    }

    /// The word as the player sees it.
    pub fn palabra_mostrada(&self) -> (r: String)
        ensures
            r@ == enmascarada(self@.palabra, self@.adivinadas),
    {
        mostrar_palabra(self.palabra.clone(), self.letras_adivinadas.clone())
    }

    /// Whether the game goes on: attempts are left and the word is not shown whole.
    pub fn en_curso(&self) -> (r: bool)
        ensures
            r == (self@.intentos > 0 && !ganada(self@)),
    {
        if self.intentos <= 0 {
            return false;
        }
        let mostrada = self.palabra_mostrada();
        mostrada != self.palabra
    }

    /// The attempts left.
    pub fn intentos(&self) -> (r: i32)
        ensures
            r == self@.intentos,
    {
        self.intentos
    }

    /// The letters guessed so far, in the order they came.
    pub fn letras_adivinadas(&self) -> (r: Vec<char>)
        ensures
            r@ == self@.adivinadas,
    {
        self.letras_adivinadas.clone()
    }

    /// The letters failed so far, in the order they came.
    pub fn letras_falladas(&self) -> (r: Vec<char>)
        ensures
            r@ == self@.falladas,
    {
        self.letras_falladas.clone()
    }

    /// Plays one line of input: nothing happens when it gave no single letter (`None`);
    /// otherwise the letter is handled as `tras_letra` says, and what it was comes back.
    pub fn jugar(&mut self, entrada: Option<char>) -> (r: Option<Jugada>)
        requires
            partida_valida(old(self)@),
            old(self)@.intentos > 0,
        ensures
            partida_valida(final(self)@),
            match entrada {
                None => r is None && final(self)@ == old(self)@,
                Some(letra) => {
                    &&& final(self)@ == tras_letra(old(self)@, letra)
                    &&& r == Some(
                        if old(self)@.palabra.contains(letra) {
                            Jugada::Acierto { nueva: !old(self)@.adivinadas.contains(letra) }
                        } else {
                            Jugada::Fallo { nueva: !old(self)@.falladas.contains(letra) }
                        },
                    )
                },
            },
    {
        match entrada {
            None => None,
            Some(letra) => {
                let ghost antes = self@;
                let jugada = procesar_letra(
                    letra,
                    self.palabra.clone(),
                    &mut self.letras_adivinadas,
                    &mut self.letras_falladas,
                    &mut self.intentos,
                );
                proof {
                    assert(self@ =~= tras_letra(antes, letra));
                    let p = self@;
                    if antes.palabra.contains(letra) && !antes.adivinadas.contains(letra) {
                        assert forall|i: int, j: int|
                            0 <= i < p.adivinadas.len() && 0 <= j < p.adivinadas.len() && i != j
                            implies p.adivinadas[i] != p.adivinadas[j] by {
                            if i == antes.adivinadas.len() {
                                assert(antes.adivinadas[j] == p.adivinadas[j]);
                            } else if j == antes.adivinadas.len() {
                                assert(antes.adivinadas[i] == p.adivinadas[i]);
                            }
                        }
                        assert forall|i: int| 0 <= i < p.adivinadas.len() implies p.palabra.contains(
                            #[trigger] p.adivinadas[i],
                        ) by {
                            if i < antes.adivinadas.len() {
                                assert(antes.adivinadas[i] == p.adivinadas[i]);
                            }
                        }
                    }
                    if !antes.palabra.contains(letra) && !antes.falladas.contains(letra) {
                        assert forall|i: int, j: int|
                            0 <= i < p.falladas.len() && 0 <= j < p.falladas.len() && i != j
                            implies p.falladas[i] != p.falladas[j] by {
                            if i == antes.falladas.len() {
                                assert(antes.falladas[j] == p.falladas[j]);
                            } else if j == antes.falladas.len() {
                                assert(antes.falladas[i] == p.falladas[i]);
                            }
                        }
                        assert forall|i: int| 0 <= i < p.falladas.len() implies !p.palabra.contains(
                            #[trigger] p.falladas[i],
                        ) by {
                            if i < antes.falladas.len() {
                                assert(antes.falladas[i] == p.falladas[i]);
                            }
                        }
                    }
                }
                Some(jugada)
            },
        }
    }

    /// How the game ended: won while attempts are left, lost once none is.
    pub fn resultado(&self) -> (r: Result<(), ErrorJuego>)
        ensures
            r == (if self@.intentos > 0 {
                Ok::<(), ErrorJuego>(())
            } else {
                Err(ErrorJuego::IntentosAgotados)
            }),
    {
        if self.intentos > 0 {
            Ok(())
        } else {
            Err(ErrorJuego::IntentosAgotados)
        }
    }
}

/// In a consistent game, every letter tried is either guessed or failed, never both, and
/// the attempts left are the initial ones minus the failed letters.
pub proof fn ley_letras_separadas(p: VistaPartida, c: char)
    requires
        partida_valida(p),
    ensures
        !(p.adivinadas.contains(c) && p.falladas.contains(c)),
        p.intentos + p.falladas.len() == INTENTOS_INICIALES,
{
    if p.adivinadas.contains(c) && p.falladas.contains(c) {
        let i = choose|i: int| 0 <= i < p.adivinadas.len() && p.adivinadas[i] == c;
        let j = choose|j: int| 0 <= j < p.falladas.len() && p.falladas[j] == c;
        assert(p.palabra.contains(p.adivinadas[i]));
        assert(!p.palabra.contains(p.falladas[j]));
    }
}

/// A guess of a letter tried before changes nothing, and a new letter either shows more
/// of the word or costs exactly one attempt.
pub proof fn ley_cada_letra(p: VistaPartida, letra: char)
    requires
        partida_valida(p),
    ensures
        (p.adivinadas.contains(letra) || p.falladas.contains(letra)) ==> tras_letra(p, letra) == p,
        !p.adivinadas.contains(letra) && !p.falladas.contains(letra) ==> {
            ||| tras_letra(p, letra).adivinadas.len() == p.adivinadas.len() + 1
                && tras_letra(p, letra).intentos == p.intentos
            ||| tras_letra(p, letra).falladas.len() == p.falladas.len() + 1
                && tras_letra(p, letra).intentos == p.intentos - 1
        },
{
    if p.adivinadas.contains(letra) {
        let i = choose|i: int| 0 <= i < p.adivinadas.len() && p.adivinadas[i] == letra;
        assert(p.palabra.contains(p.adivinadas[i]));
    }
    if p.falladas.contains(letra) {
        let i = choose|i: int| 0 <= i < p.falladas.len() && p.falladas[i] == letra;
        assert(!p.palabra.contains(p.falladas[i]));
    }
}

} // verus!
