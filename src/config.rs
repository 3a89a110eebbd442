//! The options of one compilation: the scan root, the allowed extensions
//! and the logical prefix, with their defaults.

use vstd::prelude::*;
use crate::ident::split_on;
use crate::scan::string_views;
use crate::text::{chars_equal, chars_of, is_whitespace, string_from_chars, whitespace_of};

verus! {

/// `s` without its leading white space.
pub open spec fn trim_start(s: Seq<char>) -> Seq<char>
    decreases s.len(),
{
    if s.len() > 0 && whitespace_of(s[0]) {
        trim_start(s.drop_first())
    } else {
        s
    }
}

/// `s` without its trailing white space.
pub open spec fn trim_end(s: Seq<char>) -> Seq<char>
    decreases s.len(),
{
    if s.len() > 0 && whitespace_of(s.last()) {
        trim_end(s.drop_last())
    } else {
        s
    }
}

/// `s` without white space at either end.
pub open spec fn trimmed(s: Seq<char>) -> Seq<char> {
    trim_end(trim_start(s))
}

/// The trimmed pieces, leaving out those that are empty once trimmed.
pub open spec fn extension_list(pieces: Seq<Seq<char>>) -> Seq<Seq<char>>
    decreases pieces.len(),
{
    if pieces.len() == 0 {
        Seq::empty()
    } else {
        let before = extension_list(pieces.drop_last());
        let t = trimmed(pieces.last());
        if t.len() == 0 {
            before
        } else {
            before.push(t)
        }
    }
}

/// The extensions named by a comma-separated list.
pub open spec fn parsed_extensions(list: Seq<char>) -> Seq<Seq<char>> {
    extension_list(split_on(list, ','))
}

fn trim_chars(s: &Vec<char>) -> (r: Vec<char>)
    ensures
        r@ == trimmed(s@),
{
    let mut lo: usize = 0;
    assert(s@.skip(0) =~= s@);
    while lo < s.len() && is_whitespace(s[lo])
        invariant
            lo <= s@.len(),
            trim_start(s@) == trim_start(s@.skip(lo as int)),
        decreases s@.len() - lo,
    {
        assert(s@.skip(lo as int).drop_first() =~= s@.skip(lo + 1));
        lo = lo + 1;
    }
    let ghost mid = s@.skip(lo as int);
    assert(trim_start(s@) == mid);
    let mut hi: usize = s.len();
    while hi > lo && is_whitespace(s[hi - 1])
        invariant
            lo <= hi <= s@.len(),
            mid == s@.skip(lo as int),
            trim_end(mid) == trim_end(s@.subrange(lo as int, hi as int)),
        decreases hi,
    {
        assert(s@.subrange(lo as int, hi as int).drop_last() =~= s@.subrange(lo as int, hi - 1));
        hi = hi - 1;
    }
    assert(s@.subrange(lo as int, s@.len() as int) =~= mid);
    let mut out: Vec<char> = Vec::new();
    let mut k: usize = lo;
    while k < hi
        invariant
            lo <= k <= hi,
            hi <= s@.len(),
            out@ == s@.subrange(lo as int, k as int),
        decreases hi - k,
    {
        out.push(s[k]);
        k = k + 1;
        assert(out@ =~= s@.subrange(lo as int, k as int));
    }
    out
}

/// The extensions named by a comma-separated list: each piece trimmed of
/// white space, empty pieces left out (`"rs, svg,,toml"` names `rs`, `svg`
/// and `toml`).
pub fn parse_extensions(list: &str) -> (r: Vec<String>)
    ensures
        string_views(r@) == parsed_extensions(list@),
{
    let cs = chars_of(list);
    let mut out: Vec<String> = Vec::new();
    let mut cur: Vec<char> = Vec::new();
    let mut i: usize = 0;
    assert(string_views(out@) =~= Seq::<Seq<char>>::empty());
    while i < cs.len()
        invariant
            i <= cs@.len(),
            cs@ == list@,
            split_on(cs@.subrange(0, i as int), ',').len() >= 1,
            cur@ == split_on(cs@.subrange(0, i as int), ',').last(),
            string_views(out@) == extension_list(
                split_on(cs@.subrange(0, i as int), ',').drop_last(),
            ),
        decreases cs@.len() - i,
    {
        let c = cs[i];
        let ghost segs = split_on(cs@.subrange(0, i as int), ',');
        assert(cs@.subrange(0, i + 1).drop_last() =~= cs@.subrange(0, i as int));
        if c == ',' {
            let t = trim_chars(&cur);
            let ghost out_before = out@;
            if t.len() > 0 {
                out.push(string_from_chars(&t));
                assert(string_views(out@) =~= string_views(out_before).push(t@));
            }
            cur = Vec::new();
            assert(segs.push(Seq::empty()).drop_last() =~= segs);
        } else {
            cur.push(c);
            proof {
                let next = segs.update(segs.len() - 1, segs.last().push(c));
                assert(next.drop_last() =~= segs.drop_last());
            }
        }
        i = i + 1;
    }
    assert(cs@.subrange(0, cs@.len() as int) =~= cs@);
    let t = trim_chars(&cur);
    let ghost out_before = out@;
    if t.len() > 0 {
        out.push(string_from_chars(&t));
        assert(string_views(out@) =~= string_views(out_before).push(t@));
    }
    out
}

/// An option name that the compiler does not know.
#[derive(Clone, Debug)]
pub struct UnknownOption {
    pub name: String,
}

/// The options as given; one not given takes its default when resolved.
#[derive(Clone, Debug)]
pub struct Options {
    pub root: Option<String>,
    pub extensions: Option<Vec<String>>,
    pub prefix: Option<String>,
}

/// The options of one compilation, defaults filled in.
#[derive(Clone, Debug)]
pub struct ScanConfig {
    pub root: String,
    pub extensions: Vec<String>,
    pub prefix: String,
}

/// The text of an optional string.
pub open spec fn text_of(o: Option<String>) -> Option<Seq<char>> {
    match o {
        Some(v) => Some(v@),
        None => None,
    }
}

/// The texts of an optional list of strings.
pub open spec fn texts_of(o: Option<Vec<String>>) -> Option<Seq<Seq<char>>> {
    match o {
        Some(v) => Some(string_views(v@)),
        None => None,
    }
}

/// The names of the options: the scan root, the extension list and the
/// logical prefix.
pub open spec fn known_option(name: Seq<char>) -> bool {
    name == "path"@ || name == "ext"@ || name == "prefix"@
}

fn same_text(a: &str, b: &str) -> (r: bool)
    ensures
        r == (a@ == b@),
{
    chars_equal(&chars_of(a), &chars_of(b))
}

impl Options {
    /// No option given.
    pub fn new() -> (r: Options)
        ensures
            r.root is None,
            r.extensions is None,
            r.prefix is None,
    {
        Options { root: None, extensions: None, prefix: None }
    }

    /// Sets the option called `name` from its text: `path` (the scan root),
    /// `ext` (a comma-separated extension list) or `prefix`. Any other name
    /// is refused and changes nothing.
    pub fn set(&mut self, name: &str, value: &str) -> (r: Result<(), UnknownOption>)
        ensures
            r is Ok <==> known_option(name@),
            r matches Err(e) ==> e.name@ == name@ && *final(self) == *old(self),
            name@ == "path"@ ==> text_of(final(self).root) == Some(value@)
                && final(self).extensions == old(self).extensions
                && final(self).prefix == old(self).prefix,
            name@ == "ext"@ ==> texts_of(final(self).extensions) == Some(parsed_extensions(value@))
                && final(self).root == old(self).root
                && final(self).prefix == old(self).prefix,
            name@ == "prefix"@ ==> text_of(final(self).prefix) == Some(value@)
                && final(self).root == old(self).root
                && final(self).extensions == old(self).extensions,
    {
        proof {
            reveal_strlit("path");
            reveal_strlit("ext");
            reveal_strlit("prefix");
            assert("path"@.len() == 4 && "ext"@.len() == 3 && "prefix"@.len() == 6);
            assert("path"@ != "ext"@ && "path"@ != "prefix"@ && "ext"@ != "prefix"@);
        }
        if same_text(name, "path") {
            self.root = Some(value.to_owned());
            Ok(())
        } else if same_text(name, "ext") {
            self.extensions = Some(parse_extensions(value));
            Ok(())
        } else if same_text(name, "prefix") {
            self.prefix = Some(value.to_owned());
            Ok(())
        } else {
            Err(UnknownOption { name: name.to_owned() })
        }
    }

    /// The options with defaults for those not given: the root `.`, the
    /// single extension `svg`, and no prefix.
    pub fn resolve(self) -> (r: ScanConfig)
        ensures
            r.root@ == text_of(self.root).unwrap_or("."@),
            string_views(r.extensions@) == texts_of(self.extensions).unwrap_or(seq!["svg"@]),
            r.prefix@ == text_of(self.prefix).unwrap_or(Seq::<char>::empty()),
    {
        let root = match self.root {
            Some(v) => v,
            None => String::from_str("."),
        };
        let extensions = match self.extensions {
            Some(v) => v,
            None => {
                let mut v: Vec<String> = Vec::new();
                v.push(String::from_str("svg"));
                assert(string_views(v@) =~= seq!["svg"@]);
                v
            },
        };
        let prefix = match self.prefix {
            Some(v) => v,
            None => String::new(),
        };
        ScanConfig { root, extensions, prefix }
    }
}

} // verus!
