use vstd::prelude::*;
use vstd::string::StrSliceExecFns;
use vstd::string::StringExecFns;

use crate::Error;

verus! {

/// The delimiter line that separates sections of editor text: a line of
/// ten equals signs on its own.
pub open spec fn spec_delim() -> Seq<char> {
    "\n==========\n"@
}

/// The pattern occurs in `text` at position `i`.
pub open spec fn matches_at(text: Seq<char>, pat: Seq<char>, i: int) -> bool {
    0 <= i && i + pat.len() <= text.len() && text.subrange(i, i + pat.len()) == pat
}

/// `i` is the first occurrence of the pattern at or after `from`.
pub open spec fn found_at(text: Seq<char>, pat: Seq<char>, from: int, i: int) -> bool {
    matches_at(text, pat, i) && from <= i && forall|w: int|
        from <= w < i ==> !matches_at(text, pat, w)
}

/// First occurrence of `pat` in `text` at or after `from`, if any.
fn find_pattern(text: &str, pat: &str, from: usize) -> (r: Option<usize>)
    requires
        from <= text@.len(),
        1 <= pat@.len(),
    ensures
        match r {
            Some(i) => found_at(text@, pat@, from as int, i as int),
            None => forall|w: int| from <= w ==> !matches_at(text@, pat@, w),
        },
{
    let tlen = text.unicode_len();
    let plen = pat.unicode_len();
    if plen > tlen {
        return None;
    }
    let mut i = from;
    if i > tlen - plen {
        proof {
            assert forall|w: int| from <= w implies !matches_at(text@, pat@, w) by {
                assert(w + pat@.len() > text@.len());
            }
        }
        return None;
    }
    while i <= tlen - plen
        invariant
            from <= i <= tlen,
            tlen == text@.len(),
            plen == pat@.len(),
            1 <= plen <= tlen,
            forall|w: int| from <= w < i ==> !matches_at(text@, pat@, w),
        decreases tlen - i,
    {
        let mut j: usize = 0;
        let mut mismatch = false;
        while j < plen && !mismatch
            invariant
                0 <= j <= plen,
                i + plen <= tlen,
                tlen == text@.len(),
                plen == pat@.len(),
                !mismatch ==> forall|w: int| 0 <= w < j ==> text@[i + w] == pat@[w],
                mismatch ==> !matches_at(text@, pat@, i as int),
            decreases plen - j, (if mismatch { 0int } else { 1int }),
        {
            let tc = text.get_char(i + j);
            let pc = pat.get_char(j);
            if tc != pc {
                proof {
                    assert(text@.subrange(i as int, i + plen)[j as int] == text@[i + j]);
                }
                mismatch = true;
            } else {
                j = j + 1;
            }
        }
        if !mismatch {
            proof {
                assert(text@.subrange(i as int, i + plen) =~= pat@);
            }
            return Some(i);
        }
        i = i + 1;
    }
    proof {
        assert forall|w: int| from <= w implies !matches_at(text@, pat@, w) by {
            if w >= i {
                assert(w + pat@.len() > text@.len());
            }
        }
    }
    None
}

/// The text between the first delimiter and the second one — or everything
/// after the first delimiter, when no second one follows.
pub open spec fn second_section(text: Seq<char>, i: int) -> Seq<char> {
    let start = i + spec_delim().len();
    if exists|w: int| #[trigger] found_at(text, spec_delim(), start, w) {
        let w0 = choose|w: int| #[trigger] found_at(text, spec_delim(), start, w);
        text.subrange(start, w0)
    } else {
        text.subrange(start, text.len() as int)
    }
}

/// Splits editor text at its delimiter lines into a (title, body) pair:
/// the title is everything before the first delimiter, the body everything
/// between the first and the second (or the rest, when only one delimiter
/// occurs). Any further sections are discarded. When the delimiter does
/// not occur at all the text is malformed and nothing is guessed.
pub fn split_title_body(text: &str) -> (r: Result<(String, String), Error>)
    ensures
        match r {
            Ok(p) => exists|i: int|
                #[trigger] found_at(text@, spec_delim(), 0, i) && p.0@ == text@.subrange(0, i)
                    && p.1@ == second_section(text@, i),
            Err(e) => e == Error::MalformedInput && forall|w: int|
                !matches_at(text@, spec_delim(), w),
        },
{
    let delim = "\n==========\n";
    proof {
        reveal_strlit("\n==========\n");
    }
    let tlen = text.unicode_len();
    match find_pattern(text, delim, 0) {
        None => {
            proof {
                assert forall|w: int| !matches_at(text@, spec_delim(), w) by {
                    if w >= 0 {
                    }
                }
            }
            Err(Error::MalformedInput)
        },
        Some(i) => {
            let title = String::from_str(text.substring_char(0, i));
            let start = i + 12;
            proof {
                assert(spec_delim().len() == 12);
            }
            let body = match find_pattern(text, delim, start) {
                Some(i2) => String::from_str(text.substring_char(start, i2)),
                None => String::from_str(text.substring_char(start, tlen)),
            };
            proof {
                let ghost gi = i as int;
                assert(found_at(text@, spec_delim(), 0, gi));
                if exists|w: int| #[trigger] found_at(text@, spec_delim(), gi + 12, w) {
                    let w0 = choose|w: int| #[trigger] found_at(text@, spec_delim(), gi + 12, w);
                }
            }
            Ok((title, body))
        },
    }
}

/// `k` spaces.
pub open spec fn spec_spaces(k: int) -> Seq<char>
    decreases k,
{
    if k <= 0 {
        Seq::empty()
    } else {
        spec_spaces(k - 1).push(' ')
    }
}

/// `text` with `prefix` inserted after every newline.
pub open spec fn spec_reindented(text: Seq<char>, prefix: Seq<char>) -> Seq<char>
    decreases text.len(),
{
    if text.len() == 0 {
        Seq::empty()
    } else {
        spec_reindented(text.drop_last(), prefix) + if text.last() == '\n' {
            seq!['\n'] + prefix
        } else {
            seq![text.last()]
        }
    }
}

/// Indents every line of `text` by `level` spaces: the result is `level`
/// spaces, then the text with the same spaces inserted after each newline.
pub fn indent(text: String, level: usize) -> (r: String)
    ensures
        r@ == spec_spaces(level as int) + spec_reindented(text@, spec_spaces(level as int)),
{
    let mut prefix = String::new();
    let mut k: usize = 0;
    while k < level
        invariant
            k <= level,
            prefix@ == spec_spaces(k as int),
        decreases level - k,
    {
        prefix.append(" ");
        proof {
            reveal_strlit(" ");
            assert(" "@ =~= seq![' ']);
            assert(spec_spaces(k + 1) =~= spec_spaces(k as int).push(' '));
            assert(spec_spaces(k as int) + seq![' '] =~= spec_spaces(k as int).push(' '));
        }
        k = k + 1;
    }
    let ghost p = prefix@;
    let mut out = String::from_str(prefix.as_str());
    let s = text.as_str();
    let tlen = s.unicode_len();
    let mut i: usize = 0;
    while i < tlen
        invariant
            i <= tlen,
            tlen == text@.len(),
            s@ == text@,
            prefix@ == p,
            out@ == p + spec_reindented(text@.take(i as int), p),
        decreases tlen - i,
    {
        let piece = s.substring_char(i, i + 1);
        out.append(piece);
        let c = s.get_char(i);
        if c == '\n' {
            out.append(prefix.as_str());
        }
        proof {
            let t1 = text@.take(i + 1);
            assert(t1.drop_last() =~= text@.take(i as int));
            assert(t1.last() == text@[i as int]);
            assert(piece@ =~= seq![text@[i as int]]);
            if text@[i as int] == '\n' {
                assert(p + spec_reindented(text@.take(i as int), p) + piece@ + p =~= p
                    + (spec_reindented(text@.take(i as int), p) + (seq!['\n'] + p)));
            } else {
                assert(p + spec_reindented(text@.take(i as int), p) + piece@ =~= p + (
                spec_reindented(text@.take(i as int), p) + seq![text@[i as int]]));
            }
        }
        i = i + 1;
    }
    proof {
        assert(text@.take(tlen as int) =~= text@);
    }
    out
}

/// The sections joined with the delimiter between each two.
pub open spec fn spec_joined(parts: Seq<Seq<char>>) -> Seq<char>
    decreases parts.len(),
{
    if parts.len() == 0 {
        Seq::empty()
    } else if parts.len() == 1 {
        parts[0]
    } else {
        spec_joined(parts.drop_last()) + spec_delim() + parts.last()
    }
}

/// Builds editor pre-fill text: the given sections, in order, with the
/// delimiter line between each two.
pub fn join_sections(sections: &Vec<String>) -> (r: String)
    ensures
        r@ == spec_joined(sections@.map_values(|x: String| x@)),
{
    let ghost views = sections@.map_values(|x: String| x@);
    let mut out = String::new();
    let mut i: usize = 0;
    proof {
        reveal_strlit("\n==========\n");
    }
    while i < sections.len()
        invariant
            i <= sections@.len(),
            views == sections@.map_values(|x: String| x@),
            out@ == spec_joined(views.take(i as int)),
        decreases sections@.len() - i,
    {
        if i > 0 {
            out.append("\n==========\n");
        }
        out.append(sections[i].as_str());
        proof {
            let t1 = views.take(i + 1);
            assert(t1.drop_last() =~= views.take(i as int));
            assert(t1.last() == views[i as int]);
            assert(views[i as int] == sections@[i as int]@);
            if i == 0 {
                assert(spec_joined(t1) == views[0]);
                assert(Seq::<char>::empty() + views[0] =~= views[0]);
            } else {
                assert("\n==========\n"@ == spec_delim());
            }
        }
        i = i + 1;
    }
    proof {
        assert(views.take(sections@.len() as int) =~= views);
    }
    out
}

} // verus!
