//! Tokenization: splitting an input line into whitespace-delimited tokens,
//! and the character-wise string comparison the evaluator uses to recognize
//! operator words. The lexer splits on ASCII whitespace.

use vstd::prelude::*;

verus! {

/// The characters the lexer splits on: ASCII whitespace.
pub open spec fn is_space(c: char) -> bool {
    c == ' ' || c == '\t' || c == '\n' || c == '\r' || c == '\u{000B}' || c == '\u{000C}'
}

/// The tokens of `s` when the word gathered so far is `cur`: a space closes
/// the current word, any other character extends it.
pub open spec fn lex_acc(s: Seq<char>, cur: Seq<char>) -> Seq<Seq<char>>
    decreases s.len(),
{
    if s.len() == 0 {
        if cur.len() == 0 {
            Seq::empty()
        } else {
            seq![cur]
        }
    } else if is_space(s[0]) {
        if cur.len() == 0 {
            lex_acc(s.skip(1), Seq::empty())
        } else {
            seq![cur] + lex_acc(s.skip(1), Seq::empty())
        }
    } else {
        lex_acc(s.skip(1), cur.push(s[0]))
    }
}

/// The whitespace-delimited tokens of an input line, in order.
pub open spec fn lex_spec(s: Seq<char>) -> Seq<Seq<char>> {
    lex_acc(s, Seq::empty())
}

/// Whether `c` is a character the lexer splits on.
fn is_space_char(c: char) -> (b: bool)
    ensures
        b == is_space(c),
{
    c == ' ' || c == '\t' || c == '\n' || c == '\r' || c == '\u{000B}' || c == '\u{000C}'
}

/// Splits `text` into its whitespace-delimited tokens, in order.
pub fn lex(text: &str) -> (r: Vec<String>)
    ensures
        r.deep_view() == lex_spec(text@),
{
    let n = text.unicode_len();
    let mut r: Vec<String> = Vec::new();
    let mut i: usize = 0;
    let mut in_word = false;
    let mut w: usize = 0;
    proof {
        assert(text@.skip(0) =~= text@);
        assert(r.deep_view() + lex_acc(text@, Seq::<char>::empty()) =~~= lex_acc(
            text@,
            Seq::<char>::empty(),
        ));
    }
    while i < n
        invariant
            0 <= i <= n,
            n == text@.len(),
            in_word ==> w < i,
            lex_spec(text@) == r.deep_view() + lex_acc(
                text@.skip(i as int),
                if in_word {
                    text@.subrange(w as int, i as int)
                } else {
                    Seq::<char>::empty()
                },
            ),
        decreases n - i,
    {
        let ghost cur: Seq<char> = if in_word {
            text@.subrange(w as int, i as int)
        } else {
            Seq::<char>::empty()
        };
        proof {
            assert(text@.skip(i as int)[0] == text@[i as int]);
            assert(text@.skip(i as int).skip(1) =~= text@.skip(i as int + 1));
        }
        let c = text.get_char(i);
        if is_space_char(c) {
            if in_word {
                let ghost rdv0: Seq<Seq<char>> = r.deep_view();
                let word = text.substring_char(w, i).to_owned();
                proof {
                    assert(word@ == cur);
                }
                r.push(word);
                proof {
                    assert(r.deep_view() =~~= rdv0 + seq![cur]);
                    assert((rdv0 + seq![cur]) + lex_acc(text@.skip(i as int + 1), Seq::empty())
                        =~~= rdv0 + (seq![cur] + lex_acc(
                        text@.skip(i as int + 1),
                        Seq::empty(),
                    )));
                }
                in_word = false;
            }
        } else {
            if !in_word {
                in_word = true;
                w = i;
            }
            proof {
                assert(cur.push(text@[i as int]) =~= text@.subrange(w as int, i as int + 1));
            }
        }
        i = i + 1;
    }
    if in_word {
        let ghost cur: Seq<char> = text@.subrange(w as int, n as int);
        let ghost rdv0: Seq<Seq<char>> = r.deep_view();
        proof {
            assert(text@.skip(n as int).len() == 0);
            assert(lex_acc(text@.skip(n as int), cur) == seq![cur]);
        }
        let word = text.substring_char(w, n).to_owned();
        r.push(word);
        proof {
            assert(r.deep_view() =~~= rdv0 + seq![cur]);
        }
    } else {
        proof {
            assert(text@.skip(n as int).len() == 0);
            assert(r.deep_view() + lex_acc(text@.skip(n as int), Seq::<char>::empty()) =~~= r.deep_view());
        }
    }
    r
}

/// Character-wise string equality: the evaluator matches operator words with
/// it, so no token is mistaken for a word it merely resembles.
pub fn str_eq(a: &str, b: &str) -> (r: bool)
    ensures
        r == (a@ == b@),
{
    let n = a.unicode_len();
    if n != b.unicode_len() {
        return false;
    }
    let mut i: usize = 0;
    while i < n
        invariant
            0 <= i <= n,
            n == a@.len(),
            n == b@.len(),
            forall|j: int| 0 <= j < i ==> a@[j] == b@[j],
        decreases n - i,
    {
        if a.get_char(i) != b.get_char(i) {
            return false;
        }
        i = i + 1;
    }
    proof {
        assert(a@ =~= b@);
    }
    true
}

} // verus!
