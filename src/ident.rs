//! Identifier synthesis: a logical path becomes a valid identifier.
//!
//! Each `/`-separated segment is rewritten on its own: `&` becomes `And`,
//! `.` becomes the dot marker (or a word separator, by policy), and any
//! other character that is not a letter, an ASCII digit or `_` becomes a
//! word separator. The text is cut into words on `-`, `_` and space, each
//! word that opens with a letter gets that letter uppercased, and the words
//! are joined with nothing between them. A segment
//! that is empty, or does not start with a letter or `_`, gets a leading
//! `_`. The segments are then joined with the segment marker.

use vstd::prelude::*;
use crate::text::{
    alphabetic_of, chars_of, is_alphabetic, is_ascii_digit, string_from_chars, upper_case,
    upper_of,
};

verus! {

/// Joins the identifier forms of consecutive path segments (KATAKANA LETTER NO).
pub const SEGMENT_MARKER: char = '\u{30CE}';

/// Stands for `.` under the marker policy (KATAKANA MIDDLE DOT).
pub const DOT_MARKER: char = '\u{30FB}';

/// What a `.` inside a segment becomes.
#[derive(Clone, Copy, Debug, PartialEq, Eq, Structural)]
pub enum DotPolicy {
    /// `.` is kept visible as the dot marker (the default).
    Marker,
    /// `.` separates words, like `-`.
    Separator,
}

/// The characters that a single character of a segment is rewritten to
/// before it is cut into words: `&` spells `And`, `.` follows the dot
/// policy, letters, ASCII digits and `_` stay, and anything else becomes
/// the word separator `-`.
pub open spec fn substitute_char(c: char, dot: DotPolicy) -> Seq<char> {
    if c == '&' {
        seq!['A', 'n', 'd']
    } else if c == '.' {
        if dot == DotPolicy::Marker {
            seq![DOT_MARKER]
        } else {
            seq!['.']
        }
    } else if c == '_' || is_ascii_digit(c) || alphabetic_of(c) {
        seq![c]
    } else {
        seq!['-']
    }
}

/// The segment with every character rewritten by `substitute_char`.
pub open spec fn substitute(s: Seq<char>, dot: DotPolicy) -> Seq<char>
    decreases s.len(),
{
    if s.len() == 0 {
        Seq::empty()
    } else {
        substitute(s.drop_last(), dot) + substitute_char(s.last(), dot)
    }
}

/// The characters that cut a segment into words.
pub open spec fn is_word_separator(c: char, dot: DotPolicy) -> bool {
    c == '-' || c == '_' || c == ' ' || (c == '.' && dot == DotPolicy::Separator)
}

/// The words of `s` joined with nothing between them, each with its first
/// letter uppercased: separators vanish, and a letter that opens a word
/// (at the start, or right after a separator) is replaced by its uppercase
/// form.
pub open spec fn pascal(s: Seq<char>, dot: DotPolicy) -> Seq<char>
    decreases s.len(),
{
    if s.len() == 0 {
        Seq::empty()
    } else {
        let c = s.last();
        let before = pascal(s.drop_last(), dot);
        if is_word_separator(c, dot) {
            before
        } else if (s.len() == 1 || is_word_separator(s[s.len() - 2], dot)) && alphabetic_of(c) {
            before + upper_of(c)
        } else {
            before.push(c)
        }
    }
}

/// A character that may open an identifier: `_`, or a letter. ASCII digits
/// are never letters; they are tested first.
pub open spec fn starts_identifier(c: char) -> bool {
    c == '_' || (!is_ascii_digit(c) && alphabetic_of(c))
}

/// `s` itself where it opens with a valid first character, else `s` behind
/// one `_` (so the empty text becomes `_`).
pub open spec fn guard(s: Seq<char>) -> Seq<char> {
    if s.len() > 0 && starts_identifier(s[0]) {
        s
    } else {
        seq!['_'] + s
    }
}

/// The identifier form of one path segment.
pub open spec fn segment_identifier(seg: Seq<char>, dot: DotPolicy) -> Seq<char> {
    guard(pascal(substitute(seg, dot), dot))
}

/// The pieces of `s` between occurrences of `sep`, as `str::split` gives
/// them: always at least one piece, possibly empty ones.
pub open spec fn split_on(s: Seq<char>, sep: char) -> Seq<Seq<char>>
    decreases s.len(),
{
    if s.len() == 0 {
        seq![Seq::empty()]
    } else {
        let before = split_on(s.drop_last(), sep);
        if s.last() == sep {
            before.push(Seq::empty())
        } else {
            before.update(before.len() - 1, before.last().push(s.last()))
        }
    }
}

/// The identifier forms of `segs`, joined by the segment marker.
pub open spec fn joined_segments(segs: Seq<Seq<char>>, dot: DotPolicy) -> Seq<char>
    decreases segs.len(),
{
    if segs.len() == 0 {
        Seq::empty()
    } else if segs.len() == 1 {
        segment_identifier(segs[0], dot)
    } else {
        joined_segments(segs.drop_last(), dot) + seq![SEGMENT_MARKER] + segment_identifier(
            segs.last(),
            dot,
        )
    }
}

/// A character that an identifier may hold: `_`, an ASCII digit or letter,
/// one of the two markers, a letter, or part of a letter's uppercase form.
pub open spec fn identifier_char(ch: char) -> bool {
    ||| ch == '_'
    ||| is_ascii_digit(ch)
    ||| ('a' <= ch && ch <= 'z')
    ||| ('A' <= ch && ch <= 'Z')
    ||| ch == SEGMENT_MARKER
    ||| ch == DOT_MARKER
    ||| alphabetic_of(ch)
    ||| exists|c: char| alphabetic_of(c) && #[trigger] upper_of(c).contains(ch)
}

/// Every character of `s` may stand in an identifier.
pub open spec fn all_identifier_chars(s: Seq<char>) -> bool {
    forall|k: int| 0 <= k < s.len() ==> identifier_char(#[trigger] s[k])
}

/// The identifier of a logical path under the given dot policy.
pub open spec fn path_identifier_with(path: Seq<char>, dot: DotPolicy) -> Seq<char> {
    guard(joined_segments(split_on(path, '/'), dot))
}

/// The identifier of a logical path under the default (marker) policy.
pub open spec fn path_identifier(path: Seq<char>) -> Seq<char> {
    path_identifier_with(path, DotPolicy::Marker)
}

fn is_separator_char(c: char, dot: DotPolicy) -> (r: bool)
    ensures
        r == is_word_separator(c, dot),
{
    c == '-' || c == '_' || c == ' ' || (c == '.' && dot == DotPolicy::Separator)
}

fn substitute_segment(seg: &Vec<char>, dot: DotPolicy) -> (r: Vec<char>)
    ensures
        r@ == substitute(seg@, dot),
{
    let mut out: Vec<char> = Vec::new();
    let mut i: usize = 0;
    while i < seg.len()
        invariant
            i <= seg@.len(),
            out@ == substitute(seg@.subrange(0, i as int), dot),
        decreases seg@.len() - i,
    {
        let c = seg[i];
        let ghost before = out@;
        if c == '&' {
            out.push('A');
            out.push('n');
            out.push('d');
        } else if c == '.' {
            if dot == DotPolicy::Marker {
                out.push(DOT_MARKER);
            } else {
                out.push('.');
            }
        } else if c == '_' || ('0' <= c && c <= '9') || is_alphabetic(c) {
            out.push(c);
        } else {
            out.push('-');
        }
        assert(out@ =~= before + substitute_char(c, dot));
        i = i + 1;
        assert(seg@.subrange(0, i as int).drop_last() =~= seg@.subrange(0, i - 1));
    }
    assert(seg@.subrange(0, seg@.len() as int) =~= seg@);
    out
}

fn pascal_segment(s: &Vec<char>, dot: DotPolicy) -> (r: Vec<char>)
    ensures
        r@ == pascal(s@, dot),
{
    let mut out: Vec<char> = Vec::new();
    let mut i: usize = 0;
    while i < s.len()
        invariant
            i <= s@.len(),
            out@ == pascal(s@.subrange(0, i as int), dot),
        decreases s@.len() - i,
    {
        let c = s[i];
        let ghost prefix = s@.subrange(0, i + 1);
        assert(prefix.drop_last() =~= s@.subrange(0, i as int));
        if is_separator_char(c, dot) {
        } else if (i == 0 || is_separator_char(s[i - 1], dot)) && is_alphabetic(c) {
            let up = upper_case(c);
            let mut k: usize = 0;
            let ghost before = out@;
            while k < up.len()
                invariant
                    k <= up@.len(),
                    out@ == before + up@.subrange(0, k as int),
                decreases up@.len() - k,
            {
                out.push(up[k]);
                k = k + 1;
                assert(out@ =~= before + up@.subrange(0, k as int));
            }
            assert(up@.subrange(0, up@.len() as int) =~= up@);
        } else {
            out.push(c);
        }
        i = i + 1;
    }
    assert(s@.subrange(0, s@.len() as int) =~= s@);
    out
}

fn guard_chars(s: Vec<char>) -> (r: Vec<char>)
    ensures
        r@ == guard(s@),
{
    if s.len() > 0 {
        let c = s[0];
        if c == '_' {
            return s;
        }
        if !('0' <= c && c <= '9') && is_alphabetic(c) {
            return s;
        }
    }
    let mut out: Vec<char> = Vec::new();
    out.push('_');
    let mut i: usize = 0;
    while i < s.len()
        invariant
            i <= s@.len(),
            out@ == seq!['_'] + s@.subrange(0, i as int),
        decreases s@.len() - i,
    {
        out.push(s[i]);
        i = i + 1;
        assert(out@ =~= seq!['_'] + s@.subrange(0, i as int));
    }
    assert(s@.subrange(0, s@.len() as int) =~= s@);
    out
}

/// The identifier form of one path segment.
pub fn segment_ident(seg: &Vec<char>, dot: DotPolicy) -> (r: Vec<char>)
    ensures
        r@ == segment_identifier(seg@, dot),
{
    let sub = substitute_segment(seg, dot);
    let cased = pascal_segment(&sub, dot);
    guard_chars(cased)
}

fn append_chars(out: &mut Vec<char>, tail: &Vec<char>)
    ensures
        final(out)@ == old(out)@ + tail@,
{
    let mut i: usize = 0;
    let ghost start = out@;
    while i < tail.len()
        invariant
            i <= tail@.len(),
            out@ == start + tail@.subrange(0, i as int),
        decreases tail@.len() - i,
    {
        out.push(tail[i]);
        i = i + 1;
        assert(out@ =~= start + tail@.subrange(0, i as int));
    }
    assert(tail@.subrange(0, tail@.len() as int) =~= tail@);
}

proof fn lemma_split_nonempty(s: Seq<char>, sep: char)
    ensures
        split_on(s, sep).len() >= 1,
    decreases s.len(),
{
    if s.len() > 0 {
        lemma_split_nonempty(s.drop_last(), sep);
    }
}

/// The identifier of `path` as characters, under the given dot policy.
pub fn identifier_chars(path: &Vec<char>, dot: DotPolicy) -> (r: Vec<char>)
    ensures
        r@ == path_identifier_with(path@, dot),
{
    let mut out: Vec<char> = Vec::new();
    let mut cur: Vec<char> = Vec::new();
    let mut first = true;
    let mut i: usize = 0;
    while i < path.len()
        invariant
            i <= path@.len(),
            split_on(path@.subrange(0, i as int), '/').len() >= 1,
            cur@ == split_on(path@.subrange(0, i as int), '/').last(),
            first == (split_on(path@.subrange(0, i as int), '/').len() == 1),
            out@ == joined_segments(split_on(path@.subrange(0, i as int), '/').drop_last(), dot),
        decreases path@.len() - i,
    {
        let c = path[i];
        let ghost segs = split_on(path@.subrange(0, i as int), '/');
        assert(path@.subrange(0, i + 1).drop_last() =~= path@.subrange(0, i as int));
        if c == '/' {
            let id = segment_ident(&cur, dot);
            if !first {
                out.push(SEGMENT_MARKER);
            }
            append_chars(&mut out, &id);
            cur = Vec::new();
            first = false;
            proof {
                let next = segs.push(Seq::empty());
                assert(next.drop_last() =~= segs);
                if segs.len() > 1 {
                    assert(out@ =~= joined_segments(segs.drop_last(), dot) + seq![SEGMENT_MARKER]
                        + segment_identifier(segs.last(), dot));
                }
            }
        } else {
            cur.push(c);
            proof {
                let next = segs.update(segs.len() - 1, segs.last().push(c));
                assert(next.drop_last() =~= segs.drop_last());
            }
        }
        i = i + 1;
    }
    assert(path@.subrange(0, path@.len() as int) =~= path@);
    let ghost segs = split_on(path@, '/');
    let id = segment_ident(&cur, dot);
    if !first {
        out.push(SEGMENT_MARKER);
    }
    append_chars(&mut out, &id);
    assert(out@ =~= joined_segments(segs, dot));
    guard_chars(out)
}

/// The identifier of a logical path, under the given dot policy.
pub fn identifier_with(path: &str, dot: DotPolicy) -> (r: String)
    ensures
        r@ == path_identifier_with(path@, dot),
        all_identifier_chars(r@),
{
    proof {
        lemma_identifier_alphabet(path@, dot);
    }
    let cs = chars_of(path);
    let id = identifier_chars(&cs, dot);
    string_from_chars(&id)
}

/// The identifier of a logical path, with `.` shown as the dot marker.
pub fn identifier(path: &str) -> (r: String)
    ensures
        r@ == path_identifier(path@),
        all_identifier_chars(r@),
{
    identifier_with(path, DotPolicy::Marker)
}

proof fn lemma_split_concat(a: Seq<char>, b: Seq<char>, sep: char)
    ensures
        split_on(a + seq![sep] + b, sep) == split_on(a, sep) + split_on(b, sep),
    decreases b.len(),
{
    let whole = a + seq![sep] + b;
    if b.len() == 0 {
        assert(whole.drop_last() =~= a);
        assert(split_on(a, sep).push(Seq::empty()) =~= split_on(a, sep) + split_on(b, sep));
    } else {
        assert(whole.drop_last() =~= a + seq![sep] + b.drop_last());
        lemma_split_concat(a, b.drop_last(), sep);
        lemma_split_nonempty(b.drop_last(), sep);
        lemma_split_nonempty(a, sep);
        let left = split_on(a, sep);
        let right = split_on(b.drop_last(), sep);
        if b.last() == sep {
            assert((left + right).push(Seq::empty()) =~= left + right.push(Seq::empty()));
        } else {
            assert((left + right).update(
                (left + right).len() - 1,
                (left + right).last().push(b.last()),
            ) =~= left + right.update(right.len() - 1, right.last().push(b.last())));
        }
    }
}

proof fn lemma_joined_concat(x: Seq<Seq<char>>, y: Seq<Seq<char>>, dot: DotPolicy)
    requires
        x.len() >= 1,
        y.len() >= 1,
    ensures
        joined_segments(x + y, dot) == joined_segments(x, dot) + seq![SEGMENT_MARKER]
            + joined_segments(y, dot),
    decreases y.len(),
{
    if y.len() == 1 {
        assert((x + y).drop_last() =~= x);
    } else {
        assert((x + y).drop_last() =~= x + y.drop_last());
        lemma_joined_concat(x, y.drop_last(), dot);
        assert(joined_segments(x + y, dot) =~= joined_segments(x, dot) + seq![SEGMENT_MARKER]
            + joined_segments(y, dot));
    }
}

proof fn lemma_joined_starts(segs: Seq<Seq<char>>, dot: DotPolicy)
    requires
        segs.len() >= 1,
    ensures
        joined_segments(segs, dot).len() > 0,
        starts_identifier(joined_segments(segs, dot)[0]),
    decreases segs.len(),
{
    if segs.len() > 1 {
        lemma_joined_starts(segs.drop_last(), dot);
    }
}

/// The identifier of `parent/child` is the identifier of `parent`, the
/// segment marker, then the identifier of `child`. So a path's identifier
/// always starts with the identifier of each leading part of it: of its
/// directory, and of a prefix put in front of it.
pub proof fn lemma_identifier_of_child(parent: Seq<char>, child: Seq<char>, dot: DotPolicy)
    ensures
        path_identifier_with(parent + seq!['/'] + child, dot) == path_identifier_with(parent, dot)
            + seq![SEGMENT_MARKER] + path_identifier_with(child, dot),
{
    lemma_split_concat(parent, child, '/');
    lemma_split_nonempty(parent, '/');
    lemma_split_nonempty(child, '/');
    let x = split_on(parent, '/');
    let y = split_on(child, '/');
    lemma_joined_concat(x, y, dot);
    lemma_joined_starts(x, dot);
    lemma_joined_starts(y, dot);
    lemma_joined_starts(x + y, dot);
}

/// Every identifier is non-empty and opens with `_` or a letter.
pub proof fn lemma_identifier_valid_start(path: Seq<char>, dot: DotPolicy)
    ensures
        path_identifier_with(path, dot).len() > 0,
        starts_identifier(path_identifier_with(path, dot)[0]),
{
    lemma_split_nonempty(path, '/');
    lemma_joined_starts(split_on(path, '/'), dot);
}

proof fn lemma_substitute_alphabet(s: Seq<char>, dot: DotPolicy)
    ensures
        forall|k: int|
            0 <= k < substitute(s, dot).len() ==> identifier_char(#[trigger] substitute(s, dot)[k])
                || is_word_separator(substitute(s, dot)[k], dot),
    decreases s.len(),
{
    if s.len() > 0 {
        lemma_substitute_alphabet(s.drop_last(), dot);
        let a = substitute(s.drop_last(), dot);
        let b = substitute_char(s.last(), dot);
        assert forall|k: int| 0 <= k < (a + b).len() implies identifier_char(#[trigger] (a + b)[k])
            || is_word_separator((a + b)[k], dot) by {
            if k < a.len() {
                assert((a + b)[k] == a[k]);
            } else {
                assert((a + b)[k] == b[k - a.len()]);
            }
        }
    }
}

proof fn lemma_pascal_alphabet(s: Seq<char>, dot: DotPolicy)
    requires
        forall|k: int| 0 <= k < s.len() ==> identifier_char(#[trigger] s[k]) || is_word_separator(s[k], dot),
    ensures
        all_identifier_chars(pascal(s, dot)),
    decreases s.len(),
{
    if s.len() > 0 {
        let c = s.last();
        assert(identifier_char(s[s.len() - 1]) || is_word_separator(s[s.len() - 1], dot));
        lemma_pascal_alphabet(s.drop_last(), dot);
        let before = pascal(s.drop_last(), dot);
        if is_word_separator(c, dot) {
        } else if (s.len() == 1 || is_word_separator(s[s.len() - 2], dot)) && alphabetic_of(c) {
            let up = upper_of(c);
            assert forall|k: int| 0 <= k < (before + up).len() implies identifier_char(
                #[trigger] (before + up)[k],
            ) by {
                if k < before.len() {
                    assert((before + up)[k] == before[k]);
                } else {
                    assert((before + up)[k] == up[k - before.len()]);
                    assert(up.contains(up[k - before.len()]));
                }
            }
        } else {
            assert forall|k: int| 0 <= k < before.push(c).len() implies identifier_char(
                #[trigger] before.push(c)[k],
            ) by {
                if k < before.len() {
                    assert(before.push(c)[k] == before[k]);
                }
            }
        }
    }
}

proof fn lemma_segment_alphabet(seg: Seq<char>, dot: DotPolicy)
    ensures
        all_identifier_chars(segment_identifier(seg, dot)),
{
    lemma_substitute_alphabet(seg, dot);
    lemma_pascal_alphabet(substitute(seg, dot), dot);
    let p = pascal(substitute(seg, dot), dot);
    assert forall|k: int| 0 <= k < (seq!['_'] + p).len() implies identifier_char(
        #[trigger] (seq!['_'] + p)[k],
    ) by {
        if k > 0 {
            assert((seq!['_'] + p)[k] == p[k - 1]);
        }
    }
}

proof fn lemma_joined_alphabet(segs: Seq<Seq<char>>, dot: DotPolicy)
    ensures
        all_identifier_chars(joined_segments(segs, dot)),
    decreases segs.len(),
{
    if segs.len() == 1 {
        lemma_segment_alphabet(segs[0], dot);
    } else if segs.len() > 1 {
        lemma_joined_alphabet(segs.drop_last(), dot);
        lemma_segment_alphabet(segs.last(), dot);
        let a = joined_segments(segs.drop_last(), dot) + seq![SEGMENT_MARKER];
        let b = segment_identifier(segs.last(), dot);
        assert forall|k: int| 0 <= k < (a + b).len() implies identifier_char(#[trigger] (a + b)[k]) by {
            if k < a.len() - 1 {
                assert((a + b)[k] == joined_segments(segs.drop_last(), dot)[k]);
            } else if k == a.len() - 1 {
                assert((a + b)[k] == SEGMENT_MARKER);
            } else {
                assert((a + b)[k] == b[k - a.len()]);
            }
        }
    }
}

/// Every character of an identifier is `_`, an ASCII digit or letter, a
/// marker, a letter, or part of a letter's uppercase form: odd characters
/// of a path never reach its identifier.
pub proof fn lemma_identifier_alphabet(path: Seq<char>, dot: DotPolicy)
    ensures
        all_identifier_chars(path_identifier_with(path, dot)),
{
    lemma_joined_alphabet(split_on(path, '/'), dot);
    lemma_identifier_valid_start(path, dot);
}

} // verus!
