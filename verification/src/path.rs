//! Tokenizer for SVG path data (`d` attributes).
//!
//! Splits path data into command letters and number tokens. Numbers may run
//! together as SVG minifiers emit them: `"M10-20"` is `M`, `10`, `-20`;
//! `"M10.5.5"` is `M`, `10.5`, `0.5`; an exponent may carry a sign
//! (`"1e-2"`). Everything else (spaces, commas) separates tokens.

use vstd::prelude::*;
use crate::strings::push_char;

verus! {

pub open spec fn is_ascii_letter(c: char) -> bool {
    ('a' <= c && c <= 'z') || ('A' <= c && c <= 'Z')
}

pub open spec fn is_ascii_digit(c: char) -> bool {
    '0' <= c && c <= '9'
}

/// A command letter: an ASCII letter other than the exponent marks.
pub open spec fn is_command_letter(c: char) -> bool {
    is_ascii_letter(c) && c != 'e' && c != 'E'
}


/// `curr` pushed as a token when it is not empty.
pub open spec fn flush(tokens: Seq<Seq<char>>, curr: Seq<char>) -> Seq<Seq<char>> {
    if curr.len() > 0 {
        tokens.push(curr)
    } else {
        tokens
    }
}

/// Reading one character. The tokenizer state is the finished tokens, the
/// number being read, and whether the previous character was an exponent
/// mark appended to it (so that a following sign belongs to the exponent).
pub open spec fn tok_step(st: (Seq<Seq<char>>, Seq<char>, bool), ch: char) -> (
    Seq<Seq<char>>,
    Seq<char>,
    bool,
) {
    if st.2 && (ch == '-' || ch == '+') {
        (st.0, st.1.push(ch), false)
    } else if is_command_letter(ch) {
        (flush(st.0, st.1).push(seq![ch]), Seq::empty(), false)
    } else if ch == '-' {
        (flush(st.0, st.1), seq![ch], false)
    } else if ch == '.' {
        if st.1.contains('.') {
            (st.0.push(st.1), seq!['0', '.'], false)
        } else {
            (st.0, st.1.push(ch), false)
        }
    } else if is_ascii_digit(ch) {
        (st.0, st.1.push(ch), false)
    } else if ch == '+' && st.1.len() == 0 {
        (st.0, st.1.push(ch), false)
    } else if (ch == 'e' || ch == 'E') && st.1.len() > 0 {
        (st.0, st.1.push(ch), true)
    } else {
        (flush(st.0, st.1), Seq::empty(), false)
    }
}

/// The state after reading all of `d`.
pub open spec fn tok_run(d: Seq<char>) -> (Seq<Seq<char>>, Seq<char>, bool)
    decreases d.len(),
{
    if d.len() == 0 {
        (Seq::empty(), Seq::empty(), false)
    } else {
        tok_step(tok_run(d.drop_last()), d.last())
    }
}

/// The tokens of path data `d`.
pub open spec fn svg_tokens(d: Seq<char>) -> Seq<Seq<char>> {
    let st = tok_run(d);
    flush(st.0, st.1)
}

/// No token is empty.
pub open spec fn tokens_nonempty(ts: Seq<Seq<char>>) -> bool {
    forall|i: int| 0 <= i < ts.len() ==> (#[trigger] ts[i]).len() > 0
}

/// Every token is a single command letter or holds no command letter.
pub open spec fn tokens_well_split(ts: Seq<Seq<char>>) -> bool {
    forall|i: int|
        0 <= i < ts.len() ==> ((#[trigger] ts[i]).len() == 1 && is_command_letter(ts[i][0])) || (
        forall|k: int| 0 <= k < ts[i].len() ==> !is_command_letter(#[trigger] ts[i][k]))
}

/// Every token is non-empty, and a command letter always stands alone in
/// its token.
pub proof fn lemma_tokens_shape(d: Seq<char>)
    ensures
        tokens_nonempty(svg_tokens(d)),
        tokens_well_split(svg_tokens(d)),
    decreases d.len(),
{
    lemma_run_shape(d);
}

proof fn lemma_run_shape(d: Seq<char>)
    ensures
        tokens_nonempty(tok_run(d).0),
        tokens_well_split(tok_run(d).0),
        forall|k: int|
            0 <= k < tok_run(d).1.len() ==> !is_command_letter(#[trigger] tok_run(d).1[k]),
        tokens_nonempty(svg_tokens(d)),
        tokens_well_split(svg_tokens(d)),
    decreases d.len(),
{
    if d.len() > 0 {
        lemma_run_shape(d.drop_last());
        let st = tok_run(d.drop_last());
        let ch = d.last();
        let ns = tok_step(st, ch);
        assert(ns == tok_run(d));
        assert(tokens_nonempty(ns.0));
        assert(tokens_well_split(ns.0)) by {
            assert forall|i: int| 0 <= i < ns.0.len() implies ((
            #[trigger] ns.0[i]).len() == 1 && is_command_letter(ns.0[i][0])) || (
            forall|k: int|
                0 <= k < ns.0[i].len() ==> !is_command_letter(#[trigger] ns.0[i][k])) by {
                if i < st.0.len() {
                    assert(ns.0[i] == st.0[i]);
                }
            }
        }
    }
    let st = tok_run(d);
    assert(tokens_well_split(flush(st.0, st.1))) by {
        let f = flush(st.0, st.1);
        assert forall|i: int| 0 <= i < f.len() implies ((#[trigger] f[i]).len() == 1
            && is_command_letter(f[i][0])) || (forall|k: int|
            0 <= k < f[i].len() ==> !is_command_letter(#[trigger] f[i][k])) by {
            if i < st.0.len() {
                assert(f[i] == st.0[i]);
            }
        }
    }
}

// ── Executable tokenizer ─────────────────────────────────────────────

fn char_is_ascii_letter(c: char) -> (b: bool)
    ensures
        b == is_ascii_letter(c),
{
    ('a' <= c && c <= 'z') || ('A' <= c && c <= 'Z')
}

fn char_is_ascii_digit(c: char) -> (b: bool)
    ensures
        b == is_ascii_digit(c),
{
    '0' <= c && c <= '9'
}

/// Split SVG path data into command letters and number tokens.
pub fn tokenize_svg_path(d: &str) -> (tokens: Vec<String>)
    ensures
        tokens@.len() == svg_tokens(d@).len(),
        forall|i: int| 0 <= i < tokens@.len() ==> (#[trigger] tokens@[i])@ == svg_tokens(d@)[i],
{
    let ghost s = d@;
    let mut tokens: Vec<String> = Vec::new();
    let mut curr = String::new();
    let mut curr_has_dot = false;
    let mut after_exponent = false;
    for ch in it: d.chars()
        invariant
            it.seq() == s,
            s == d@,
            ({
                let st = tok_run(s.take(it.index() as int));
                &&& tokens@.len() == st.0.len()
                &&& forall|i: int| 0 <= i < tokens@.len() ==> (#[trigger] tokens@[i])@ == st.0[i]
                &&& curr@ == st.1
                &&& after_exponent == st.2
                &&& curr_has_dot == st.1.contains('.')
            }),
    {
        let ghost idx = it.index() as int;
        let ghost st = tok_run(s.take(idx));
        let ghost old_tokens = tokens@;
        proof {
            assert(s.take(idx + 1).drop_last() =~= s.take(idx));
            assert(s.take(idx + 1).last() == ch);
        }
        if after_exponent && (ch == '-' || ch == '+') {
            push_char(&mut curr, ch);
            after_exponent = false;
            proof {
                assert(curr@.contains('.') == st.1.contains('.')) by {
                    if st.1.contains('.') {
                        let k = choose|k: int| 0 <= k < st.1.len() && st.1[k] == '.';
                        assert(curr@[k] == '.');
                    }
                    if curr@.contains('.') {
                        let k = choose|k: int| 0 <= k < curr@.len() && curr@[k] == '.';
                        assert(k < st.1.len());
                        assert(st.1[k] == '.');
                    }
                }
            }
        } else if char_is_ascii_letter(ch) && ch != 'e' && ch != 'E' {
            if !curr.as_str().is_empty() {
                tokens.push(curr);
                curr = String::new();
            }
            let mut letter = String::new();
            push_char(&mut letter, ch);
            tokens.push(letter);
            curr_has_dot = false;
            after_exponent = false;
            proof {
                assert(letter@ =~= seq![ch]);
            }
        } else if ch == '-' {
            if !curr.as_str().is_empty() {
                tokens.push(curr);
            }
            curr = String::new();
            push_char(&mut curr, ch);
            curr_has_dot = false;
            after_exponent = false;
            proof {
                assert(curr@ =~= seq![ch]);
            }
        } else if ch == '.' {
            if curr_has_dot {
                tokens.push(curr);
                curr = String::new();
                push_char(&mut curr, '0');
                push_char(&mut curr, '.');
                proof {
                    assert(curr@ =~= seq!['0', '.']);
                }
            } else {
                push_char(&mut curr, ch);
            }
            curr_has_dot = true;
            after_exponent = false;
            proof {
                assert(curr@[curr@.len() - 1] == '.');
            }
        } else if char_is_ascii_digit(ch) || (ch == '+' && curr.as_str().is_empty()) {
            push_char(&mut curr, ch);
            after_exponent = false;
            proof {
                assert(curr@.contains('.') == st.1.contains('.')) by {
                    if st.1.contains('.') {
                        let k = choose|k: int| 0 <= k < st.1.len() && st.1[k] == '.';
                        assert(curr@[k] == '.');
                    }
                    if curr@.contains('.') {
                        let k = choose|k: int| 0 <= k < curr@.len() && curr@[k] == '.';
                        assert(k < st.1.len());
                        assert(st.1[k] == '.');
                    }
                }
            }
        } else if (ch == 'e' || ch == 'E') && !curr.as_str().is_empty() {
            push_char(&mut curr, ch);
            after_exponent = true;
            proof {
                assert(curr@.contains('.') == st.1.contains('.')) by {
                    if st.1.contains('.') {
                        let k = choose|k: int| 0 <= k < st.1.len() && st.1[k] == '.';
                        assert(curr@[k] == '.');
                    }
                    if curr@.contains('.') {
                        let k = choose|k: int| 0 <= k < curr@.len() && curr@[k] == '.';
                        assert(k < st.1.len());
                        assert(st.1[k] == '.');
                    }
                }
            }
        } else {
            if !curr.as_str().is_empty() {
                tokens.push(curr);
                curr = String::new();
            }
            curr_has_dot = false;
            after_exponent = false;
        }
        proof {
            let ns = tok_run(s.take(idx + 1));
            assert(ns == tok_step(st, ch));
            assert(tokens@.len() == ns.0.len());
            assert forall|i: int| 0 <= i < tokens@.len() implies (#[trigger] tokens@[i])@
                == ns.0[i] by {
                if i < old_tokens.len() {
                    assert(tokens@[i] == old_tokens[i]);
                }
            }
            assert(curr@ =~= ns.1);
            if !curr_has_dot {
                assert(!curr@.contains('.'));
            }
        }
    }
    proof {
        assert(s.take(s.len() as int) =~= s);
    }
    let ghost old_tokens = tokens@;
    if !curr.as_str().is_empty() {
        tokens.push(curr);
    }
    proof {
        assert forall|i: int| 0 <= i < tokens@.len() implies (#[trigger] tokens@[i])@ == svg_tokens(
            s,
        )[i] by {
            if i < old_tokens.len() {
                assert(tokens@[i] == old_tokens[i]);
            }
        }
    }
    tokens
}

} // verus!
