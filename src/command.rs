//! The text commands of a session: `r x y` reveals, `f x y` toggles a flag.

use vstd::prelude::*;
use crate::board::GameError;

verus! {

/// What a command asks for.
#[derive(Clone, Copy, Debug, PartialEq, Eq, Structural)]
pub enum Action {
    Reveal,
    Flag,
}

/// A parsed command: an action on column `x`, row `y`.
#[derive(Clone, Copy, Debug, PartialEq, Eq, Structural)]
pub struct Command {
    pub action: Action,
    pub x: usize,
    pub y: usize,
}

/// ASCII white space: space, tab, line feed, vertical tab, form feed, carriage return.
pub open spec fn is_space(b: u8) -> bool {
    b == 32 || (9 <= b && b <= 13)
}

/// The maximal runs of bytes that are not white space, in order.
pub open spec fn words(s: Seq<u8>) -> Seq<Seq<u8>>
    decreases s.len(),
{
    if s.len() == 0 {
        seq![]
    } else if is_space(s.last()) {
        words(s.drop_last())
    } else if s.len() >= 2 && !is_space(s[s.len() - 2]) {
        let w = words(s.drop_last());
        w.update(w.len() - 1, w.last().push(s.last()))
    } else {
        words(s.drop_last()).push(seq![s.last()])
    }
}

pub open spec fn is_digit(b: u8) -> bool {
    48 <= b && b <= 57
}

/// The value of a run of decimal digits.
pub open spec fn digits_value(d: Seq<u8>) -> nat
    decreases d.len(),
{
    if d.len() == 0 {
        0
    } else {
        digits_value(d.drop_last()) * 10 + (d.last() - 48) as nat
    }
}

/// The digits of a number written with an optional leading `+`.
pub open spec fn unsigned_digits(t: Seq<u8>) -> Seq<u8> {
    if t.len() > 0 && t[0] == 43 {
        t.drop_first()
    } else {
        t
    }
}

/// The number that `t` writes: one or more decimal digits after an optional
/// `+`, with a value that fits a `usize`.
pub open spec fn number_of(t: Seq<u8>) -> Option<usize> {
    let d = unsigned_digits(t);
    if d.len() > 0 && (forall|k: int| 0 <= k < d.len() ==> is_digit(#[trigger] d[k]))
        && digits_value(d) <= usize::MAX {
        Some(digits_value(d) as usize)
    } else {
        None
    }
}

/// What a command line means.
pub open spec fn command_of(s: Seq<u8>) -> Result<Command, GameError> {
    let t = words(s);
    if t.len() != 3 || number_of(t[1]).is_none() || number_of(t[2]).is_none() {
        Err(GameError::InvalidCommandFormat)
    } else if t[0] == seq![114u8] {
        Ok(Command { action: Action::Reveal, x: number_of(t[1]).unwrap(), y: number_of(t[2]).unwrap() })
    } else if t[0] == seq![102u8] {
        Ok(Command { action: Action::Flag, x: number_of(t[1]).unwrap(), y: number_of(t[2]).unwrap() })
    } else {
        Err(GameError::UnknownCommand)
    }
}

proof fn lemma_digits_value_grows(d: Seq<u8>, i: int, j: int)
    requires
        0 <= i <= j <= d.len(),
    ensures
        digits_value(d.take(i)) <= digits_value(d.take(j)),
    decreases j - i,
{
    if i < j {
        lemma_digits_value_grows(d, i, j - 1);
        assert(d.take(j).drop_last() =~= d.take(j - 1));
    }
}

proof fn lemma_words_nonempty(s: Seq<u8>)
    requires
        s.len() > 0,
        !is_space(s.last()),
    ensures
        words(s).len() > 0,
    decreases s.len(),
{
    if s.len() >= 2 && !is_space(s[s.len() - 2]) {
        lemma_words_nonempty(s.drop_last());
    }
}

/// Splits `s` into its words.
fn split_words(s: &[u8]) -> (r: Vec<Vec<u8>>)
    ensures
        r@.len() == words(s@).len(),
        forall|k: int| 0 <= k < r@.len() ==> (#[trigger] r@[k])@ == words(s@)[k],
{
    let mut toks: Vec<Vec<u8>> = Vec::new();
    let mut i: usize = 0;
    while i < s.len()
        invariant
            0 <= i <= s@.len(),
            toks@.len() == words(s@.take(i as int)).len(),
            forall|k: int| 0 <= k < toks@.len() ==> (#[trigger] toks@[k])@ == words(s@.take(i as int))[k],
        decreases s@.len() - i,
    {
        let b = s[i];
        let ghost prev = s@.take(i as int);
        let ghost next = s@.take(i as int + 1);
        proof {
            assert(next.drop_last() =~= prev);
            assert(next.last() == b);
        }
        let in_word = i > 0 && !(s[i - 1] == 32 || (9 <= s[i - 1] && s[i - 1] <= 13));
        if b == 32 || (9 <= b && b <= 13) {
        } else if in_word {
            proof {
                assert(next[next.len() - 2] == s@[i - 1]);
                assert(prev.last() == s@[i - 1]);
                lemma_words_nonempty(prev);
            }
            let ghost before = toks@;
            let mut t = toks.pop().unwrap();
            t.push(b);
            toks.push(t);
            proof {
                assert forall|k: int| 0 <= k < toks@.len() implies (#[trigger] toks@[k])@ == words(next)[k] by {
                    if k < toks@.len() - 1 {
                        assert(toks@[k] == before[k]);
                    }
                }
            }
        } else {
            let ghost before = toks@;
            toks.push(vec![b]);
            proof {
                if i > 0 {
                    assert(next[next.len() - 2] == s@[i - 1]);
                }
                assert(toks@[toks@.len() - 1]@ =~= seq![b]);
                assert forall|k: int| 0 <= k < toks@.len() implies (#[trigger] toks@[k])@ == words(next)[k] by {
                    if k < toks@.len() - 1 {
                        assert(toks@[k] == before[k]);
                    }
                }
            }
        }
        i = i + 1;
    }
    proof {
        assert(s@.take(s@.len() as int) =~= s@);
    }
    toks
}

/// Reads a number written as decimal digits after an optional `+`.
fn parse_number(t: &Vec<u8>) -> (r: Option<usize>)
    ensures
        r == number_of(t@),
{
    let start: usize = if t.len() > 0 && t[0] == 43 {
        1
    } else {
        0
    };
    let ghost d = unsigned_digits(t@);
    proof {
        if start == 1 {
            assert(d =~= t@.subrange(1, t@.len() as int));
        } else {
            assert(d =~= t@.subrange(0, t@.len() as int));
        }
    }
    if start == t.len() {
        return None;
    }
    let mut v: usize = 0;
    let mut k: usize = 0;
    let n = t.len() - start;
    while k < n
        invariant
            n == d.len(),
            start + n == t@.len(),
            t@.len() <= usize::MAX,
            d == unsigned_digits(t@),
            forall|j: int| 0 <= j < d.len() ==> d[j] == t@[start + j],
            0 <= k <= n,
            v == digits_value(d.take(k as int)),
            forall|j: int| 0 <= j < k ==> is_digit(#[trigger] d[j]),
        decreases n - k,
    {
        let b = t[start + k];
        proof {
            assert(d.take(k as int + 1).drop_last() =~= d.take(k as int));
            assert(d.take(k as int + 1).last() == d[k as int]);
        }
        if b < 48 || b > 57 {
            proof {
                assert(!is_digit(d[k as int]));
                assert(!(forall|j: int| 0 <= j < d.len() ==> is_digit(#[trigger] d[j])));
            }
            return None;
        }
        let grown = match v.checked_mul(10) {
            Some(m) => m.checked_add((b - 48) as usize),
            None => None,
        };
        match grown {
            Some(g) => {
                v = g;
            },
            None => {
                proof {
                    lemma_digits_value_grows(d, k as int + 1, d.len() as int);
                    assert(d.take(d.len() as int) =~= d);
                }
                return None;
            },
        }
        k = k + 1;
    }
    proof {
        assert(d.take(d.len() as int) =~= d);
    }
    Some(v)
}

/// Parses one command line: three words, the command `r` or `f` and two
/// coordinates. A wrong number of words or a coordinate that is not a number
/// is a format error; any other command word is an unknown command.
pub fn parse_command(line: &[u8]) -> (r: Result<Command, GameError>)
    ensures
        r == command_of(line@),
{
    let toks = split_words(line);
    if toks.len() != 3 {
        return Err(GameError::InvalidCommandFormat);
    }
    let x = match parse_number(&toks[1]) {
        Some(v) => v,
        None => {
            return Err(GameError::InvalidCommandFormat);
        },
    };
    let y = match parse_number(&toks[2]) {
        Some(v) => v,
        None => {
            return Err(GameError::InvalidCommandFormat);
        },
    };
    let ghost w0 = words(line@)[0];
    let action = if toks[0].len() == 1 && toks[0][0] == 114 {
        proof {
            assert(w0 =~= seq![114u8]);
        }
        Action::Reveal
    } else if toks[0].len() == 1 && toks[0][0] == 102 {
        proof {
            assert(w0 =~= seq![102u8]);
        }
        Action::Flag
    } else {
        proof {
            assert(w0 != seq![114u8]) by {
                if w0 == seq![114u8] {
                    assert(w0[0] == 114u8);
                }
            }
            assert(w0 != seq![102u8]) by {
                if w0 == seq![102u8] {
                    assert(w0[0] == 102u8);
                }
            }
        }
        return Err(GameError::UnknownCommand);
    };
    Ok(Command { action, x, y })
}

} // verus!
