//! Key-pattern matching for the `Keys` command, and the rendering of its
//! reply.
//!
//! A pattern is a glob where `*` matches any substring; it is translated by
//! replacing each `*` with `.*` and handing the result to the regex engine.
//! Every other character keeps whatever meaning it has in a regular
//! expression — a `.` in a pattern behaves as a regex dot.  This is a known
//! sharp edge of the protocol and is preserved on purpose.

use vstd::prelude::*;
use vstd::string::{StrSliceExecFns, StringExecFns};

verus! {

/// Whether the regex engine accepts this pattern source.
pub uninterp spec fn regex_valid(pattern: Seq<char>) -> bool;

/// Whether the regex engine finds a match of `pattern` in `text`.
pub uninterp spec fn regex_matches(pattern: Seq<char>, text: Seq<char>) -> bool;

/// Relies on `regex::Regex::new`: whether a pattern source compiles
/// depends on the pattern string alone.
#[verifier::external_body]
pub fn regex_is_valid(pattern: &str) -> (r: bool)
    ensures
        r == regex_valid(pattern@),
{
    regex::Regex::new(pattern).is_ok()
}

/// Relies on `regex::Regex::new` and `regex::Regex::is_match`: compiling
/// fails exactly on the patterns it always fails on, and the match outcome
/// depends on the pattern and haystack strings alone.
#[verifier::external_body]
pub fn regex_match(pattern: &str, text: &str) -> (r: Option<bool>)
    ensures
        r is Some <==> regex_valid(pattern@),
        r is Some ==> r->0 == regex_matches(pattern@, text@),
{
    match regex::Regex::new(pattern) {
        Ok(re) => Some(re.is_match(text)),
        Err(_) => None,
    }
}

/// What one pattern character contributes to the regex source.
pub open spec fn spec_glob_piece(c: char) -> Seq<char> {
    if c == '*' {
        seq!['.', '*']
    } else {
        seq![c]
    }
}

/// The regex source of a glob pattern: each `*` becomes `.*`, every other
/// character is passed through.
pub open spec fn spec_glob_regex(p: Seq<char>) -> Seq<char>
    decreases p.len(),
{
    if p.len() == 0 {
        Seq::empty()
    } else {
        spec_glob_regex(p.drop_last()) + spec_glob_piece(p.last())
    }
}

/// Translates a glob pattern to its regex source.
pub fn glob_to_regex(pattern: &str) -> (r: String)
    ensures
        r@ == spec_glob_regex(pattern@),
{
    let len = pattern.unicode_len();
    let mut out = String::new();
    let mut i: usize = 0;
    while i < len
        invariant
            i <= len,
            len == pattern@.len(),
            out@ == spec_glob_regex(pattern@.take(i as int)),
        decreases len - i,
    {
        let c = pattern.get_char(i);
        proof {
            assert(pattern@.take(i + 1).drop_last() =~= pattern@.take(i as int));
            assert(pattern@.take(i + 1).last() == pattern@[i as int]);
        }
        if c == '*' {
            proof {
                reveal_strlit(".*");
            }
            out.append(".*");
            proof {
                assert(out@ =~= spec_glob_regex(pattern@.take(i + 1)));
            }
        } else {
            let piece = pattern.substring_char(i, i + 1);
            out.append(piece);
            proof {
                assert(piece@ =~= seq![pattern@[i as int]]);
                assert(out@ =~= spec_glob_regex(pattern@.take(i + 1)));
            }
        }
        i = i + 1;
    }
    proof {
        assert(pattern@.take(len as int) =~= pattern@);
    }
    out
}

/// One key as it stands in the rendered list: wrapped in double quotes.
pub open spec fn spec_quoted(k: Seq<char>) -> Seq<char> {
    seq!['"'] + k + seq!['"']
}

/// The quoted keys joined with a comma and a space.
pub open spec fn spec_render_inner(keys: Seq<Seq<char>>) -> Seq<char>
    decreases keys.len(),
{
    if keys.len() == 0 {
        Seq::empty()
    } else if keys.len() == 1 {
        spec_quoted(keys[0])
    } else {
        spec_render_inner(keys.drop_last()) + seq![',', ' '] + spec_quoted(keys.last())
    }
}

/// The rendered reply of the `Keys` command: the quoted keys, joined with
/// a comma and a space, inside square brackets.  A quote inside a key is
/// not escaped.
pub open spec fn spec_render_keys(keys: Seq<Seq<char>>) -> Seq<char> {
    seq!['['] + spec_render_inner(keys) + seq![']']
}

/// Renders a list of keys as `spec_render_keys` describes it.
pub fn render_keys(keys: &Vec<String>) -> (r: String)
    ensures
        r@ == spec_render_keys(keys@.map_values(|s: String| s@)),
{
    let ghost kv = keys@.map_values(|s: String| s@);
    proof {
        reveal_strlit("[");
        reveal_strlit("]");
        reveal_strlit("\"");
        reveal_strlit(", ");
    }
    let mut out = String::new();
    out.append("[");
    let mut i: usize = 0;
    while i < keys.len()
        invariant
            i <= keys@.len(),
            kv == keys@.map_values(|s: String| s@),
            out@ == seq!['['] + spec_render_inner(kv.take(i as int)),
        decreases keys@.len() - i,
    {
        proof {
            reveal_strlit("\"");
            reveal_strlit(", ");
        }
        if i > 0 {
            out.append(", ");
        }
        out.append("\"");
        out.append(keys[i].as_str());
        out.append("\"");
        proof {
            assert(kv.take(i + 1).drop_last() =~= kv.take(i as int));
            assert(kv.take(i + 1).last() == kv[i as int]);
            assert(kv[i as int] == keys@[i as int]@);
            if i == 0 {
                assert(spec_render_inner(kv.take(1)) == spec_quoted(kv.take(1)[0]));
                assert(spec_render_inner(kv.take(0int)) == Seq::<char>::empty());
            } else {
                assert(spec_render_inner(kv.take(i + 1)) == spec_render_inner(kv.take(i as int))
                    + seq![',', ' '] + spec_quoted(kv[i as int]));
            }
            assert(out@ =~= seq!['['] + spec_render_inner(kv.take(i + 1)));
        }
        i = i + 1;
    }
    out.append("]");
    proof {
        assert(kv.take(keys@.len() as int) =~= kv);
        assert(out@ =~= spec_render_keys(kv));
    }
    out
}

} // verus!
