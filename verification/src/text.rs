//! The reference tokenization policy for plain text.
//!
//! A token is a maximal run of Latin letters, lowercased; every other
//! character (whitespace, digits, punctuation, anything beyond ASCII letters)
//! acts as a token boundary and is discarded. This is one valid tokenizer
//! among many — the classifier core places no policy of its own on tokens.

use vstd::prelude::*;
use vstd::string::StrSliceExecFns;
use vstd::string::StringExecFns;
use crate::bayes_classifier::Tokenize;
use crate::bayes_classifier::views;

verus! {

/// Normalization of one character: a Latin letter stands for its lowercase
/// form, any other character is a token boundary (`None`).
pub open spec fn norm_char(ch: char) -> Option<char> {
    if 'a' as u32 <= ch as u32 && ch as u32 <= 'z' as u32 {
        Some(ch)
    } else {
        match ch {
            'A' => Some('a'),
            'B' => Some('b'),
            'C' => Some('c'),
            'D' => Some('d'),
            'E' => Some('e'),
            'F' => Some('f'),
            'G' => Some('g'),
            'H' => Some('h'),
            'I' => Some('i'),
            'J' => Some('j'),
            'K' => Some('k'),
            'L' => Some('l'),
            'M' => Some('m'),
            'N' => Some('n'),
            'O' => Some('o'),
            'P' => Some('p'),
            'Q' => Some('q'),
            'R' => Some('r'),
            'S' => Some('s'),
            'T' => Some('t'),
            'U' => Some('u'),
            'V' => Some('v'),
            'W' => Some('w'),
            'X' => Some('x'),
            'Y' => Some('y'),
            'Z' => Some('z'),
            _ => None,
        }
    }
}

/// The words of `s`, given that the letters of an unfinished word `cur`
/// directly precede `s`: normalized maximal letter runs, in order.
pub open spec fn word_tokens_from(s: Seq<char>, cur: Seq<char>) -> Seq<Seq<char>>
    decreases s.len(),
{
    if s.len() == 0 {
        if cur.len() == 0 {
            Seq::<Seq<char>>::empty()
        } else {
            seq![cur]
        }
    } else {
        match norm_char(s[0]) {
            Some(c) => word_tokens_from(s.drop_first(), cur.push(c)),
            None => {
                if cur.len() == 0 {
                    word_tokens_from(s.drop_first(), Seq::<char>::empty())
                } else {
                    seq![cur] + word_tokens_from(s.drop_first(), Seq::<char>::empty())
                }
            },
        }
    }
}

/// The token sequence of the text `s` under the reference policy.
pub open spec fn word_tokens(s: Seq<char>) -> Seq<Seq<char>> {
    word_tokens_from(s, Seq::<char>::empty())
}

/// Normalize one character, handing back the lowercase letter as a borrowed
/// one-character string, or nothing for a boundary character.
fn normalize_char(ch: char) -> (r: Option<&'static str>)
    ensures
        match r {
            Some(t) => t@.len() == 1 && norm_char(ch) == Some(t@[0]),
            None => norm_char(ch) is None,
        },
{
    match ch {
        'a' => {
            proof {
                reveal_strlit("a");
            }
            Some("a")
        },
        'b' => {
            proof {
                reveal_strlit("b");
            }
            Some("b")
        },
        'c' => {
            proof {
                reveal_strlit("c");
            }
            Some("c")
        },
        'd' => {
            proof {
                reveal_strlit("d");
            }
            Some("d")
        },
        'e' => {
            proof {
                reveal_strlit("e");
            }
            Some("e")
        },
        'f' => {
            proof {
                reveal_strlit("f");
            }
            Some("f")
        },
        'g' => {
            proof {
                reveal_strlit("g");
            }
            Some("g")
        },
        'h' => {
            proof {
                reveal_strlit("h");
            }
            Some("h")
        },
        'i' => {
            proof {
                reveal_strlit("i");
            }
            Some("i")
        },
        'j' => {
            proof {
                reveal_strlit("j");
            }
            Some("j")
        },
        'k' => {
            proof {
                reveal_strlit("k");
            }
            Some("k")
        },
        'l' => {
            proof {
                reveal_strlit("l");
            }
            Some("l")
        },
        'm' => {
            proof {
                reveal_strlit("m");
            }
            Some("m")
        },
        'n' => {
            proof {
                reveal_strlit("n");
            }
            Some("n")
        },
        'o' => {
            proof {
                reveal_strlit("o");
            }
            Some("o")
        },
        'p' => {
            proof {
                reveal_strlit("p");
            }
            Some("p")
        },
        'q' => {
            proof {
                reveal_strlit("q");
            }
            Some("q")
        },
        'r' => {
            proof {
                reveal_strlit("r");
            }
            Some("r")
        },
        's' => {
            proof {
                reveal_strlit("s");
            }
            Some("s")
        },
        't' => {
            proof {
                reveal_strlit("t");
            }
            Some("t")
        },
        'u' => {
            proof {
                reveal_strlit("u");
            }
            Some("u")
        },
        'v' => {
            proof {
                reveal_strlit("v");
            }
            Some("v")
        },
        'w' => {
            proof {
                reveal_strlit("w");
            }
            Some("w")
        },
        'x' => {
            proof {
                reveal_strlit("x");
            }
            Some("x")
        },
        'y' => {
            proof {
                reveal_strlit("y");
            }
            Some("y")
        },
        'z' => {
            proof {
                reveal_strlit("z");
            }
            Some("z")
        },
        'A' => {
            proof {
                reveal_strlit("a");
            }
            Some("a")
        },
        'B' => {
            proof {
                reveal_strlit("b");
            }
            Some("b")
        },
        'C' => {
            proof {
                reveal_strlit("c");
            }
            Some("c")
        },
        'D' => {
            proof {
                reveal_strlit("d");
            }
            Some("d")
        },
        'E' => {
            proof {
                reveal_strlit("e");
            }
            Some("e")
        },
        'F' => {
            proof {
                reveal_strlit("f");
            }
            Some("f")
        },
        'G' => {
            proof {
                reveal_strlit("g");
            }
            Some("g")
        },
        'H' => {
            proof {
                reveal_strlit("h");
            }
            Some("h")
        },
        'I' => {
            proof {
                reveal_strlit("i");
            }
            Some("i")
        },
        'J' => {
            proof {
                reveal_strlit("j");
            }
            Some("j")
        },
        'K' => {
            proof {
                reveal_strlit("k");
            }
            Some("k")
        },
        'L' => {
            proof {
                reveal_strlit("l");
            }
            Some("l")
        },
        'M' => {
            proof {
                reveal_strlit("m");
            }
            Some("m")
        },
        'N' => {
            proof {
                reveal_strlit("n");
            }
            Some("n")
        },
        'O' => {
            proof {
                reveal_strlit("o");
            }
            Some("o")
        },
        'P' => {
            proof {
                reveal_strlit("p");
            }
            Some("p")
        },
        'Q' => {
            proof {
                reveal_strlit("q");
            }
            Some("q")
        },
        'R' => {
            proof {
                reveal_strlit("r");
            }
            Some("r")
        },
        'S' => {
            proof {
                reveal_strlit("s");
            }
            Some("s")
        },
        'T' => {
            proof {
                reveal_strlit("t");
            }
            Some("t")
        },
        'U' => {
            proof {
                reveal_strlit("u");
            }
            Some("u")
        },
        'V' => {
            proof {
                reveal_strlit("v");
            }
            Some("v")
        },
        'W' => {
            proof {
                reveal_strlit("w");
            }
            Some("w")
        },
        'X' => {
            proof {
                reveal_strlit("x");
            }
            Some("x")
        },
        'Y' => {
            proof {
                reveal_strlit("y");
            }
            Some("y")
        },
        'Z' => {
            proof {
                reveal_strlit("z");
            }
            Some("z")
        },
        _ => None,
    }
}

/// Split `s` into its reference-policy tokens: lowercased maximal runs of
/// Latin letters.
#[verifier::loop_isolation(false)]
pub fn tokenize_str(s: &str) -> (r: Vec<String>)
    ensures
        r@.len() == word_tokens(s@).len(),
        forall|i: int| 0 <= i < r@.len() ==> #[trigger] r@[i]@ == word_tokens(s@)[i],
{
    let n = s.unicode_len();
    let mut result: Vec<String> = Vec::new();
    let mut cur = String::new();
    let mut i: usize = 0;
    proof {
        assert(s@.skip(0) =~= s@);
        assert(views(result@) =~= Seq::<Seq<char>>::empty());
        assert(views(result@) + word_tokens_from(s@.skip(0), cur@) =~= word_tokens(s@));
    }
    while i < n
        invariant
            i <= n,
            n == s@.len(),
            word_tokens(s@) == views(result@) + word_tokens_from(s@.skip(i as int), cur@),
        decreases n - i,
    {
        let ch = s.get_char(i);
        proof {
            assert(s@.skip(i as int)[0] == ch);
            assert(s@.skip(i as int).drop_first() =~= s@.skip(i + 1));
        }
        let ghost cur0 = cur@;
        let ghost res0 = result@;
        match normalize_char(ch) {
            Some(t) => {
                cur.append(t);
                proof {
                    assert(cur@ =~= cur0.push(t@[0]));
                    assert(word_tokens_from(s@.skip(i as int), cur0) == word_tokens_from(
                        s@.skip(i + 1),
                        cur@,
                    ));
                }
            },
            None => {
                if !cur.as_str().is_empty() {
                    result.push(cur);
                    cur = String::new();
                    proof {
                        assert(views(result@) =~= views(res0) + seq![cur0]);
                        assert(cur@ =~= Seq::<char>::empty());
                        assert(word_tokens_from(s@.skip(i as int), cur0) == seq![cur0]
                            + word_tokens_from(s@.skip(i + 1), cur@));
                        assert(views(res0) + (seq![cur0] + word_tokens_from(s@.skip(i + 1), cur@))
                            =~= views(result@) + word_tokens_from(s@.skip(i + 1), cur@));
                    }
                } else {
                    proof {
                        assert(cur@ =~= Seq::<char>::empty());
                        assert(word_tokens_from(s@.skip(i as int), cur0) == word_tokens_from(
                            s@.skip(i + 1),
                            cur@,
                        ));
                    }
                }
            },
        }
        i += 1;
    }
    proof {
        assert(s@.skip(n as int) =~= Seq::<char>::empty());
    }
    if !cur.as_str().is_empty() {
        let ghost res0 = result@;
        let ghost cur0 = cur@;
        result.push(cur);
        proof {
            assert(views(result@) =~= views(res0) + seq![cur0]);
            assert(word_tokens_from(Seq::<char>::empty(), cur0) == seq![cur0]);
            assert(views(res0) + seq![cur0] =~= word_tokens(s@));
        }
    } else {
        proof {
            assert(word_tokens_from(Seq::<char>::empty(), cur@) =~= Seq::<Seq<char>>::empty());
            assert(views(result@) + Seq::<Seq<char>>::empty() =~= views(result@));
        }
    }
    proof {
        assert forall|i2: int| 0 <= i2 < result@.len() implies #[trigger] result@[i2]@
            == word_tokens(s@)[i2] by {
            assert(views(result@)[i2] == result@[i2]@);
        }
    }
    result
}

/// Plain text tokenizes under the reference policy.
impl Tokenize for String {
    open spec fn spec_tokens(&self) -> Seq<Seq<char>> {
        word_tokens(self@)
    }

    fn tokenize(&self) -> (r: Vec<String>) {
        tokenize_str(self.as_str())
    }
}

} // verus!
