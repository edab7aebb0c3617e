//! Text markup utilities: the `<|>` cursor marker, and rich-line comparison
//! with the `[..]` wildcard.
//!
//! Positions count characters. A pattern line matches an actual line when
//! the pattern's parts between `[..]` wildcards appear in the actual line in
//! order, each found at its leftmost position after the previous part; the
//! first part must sit at the very start, and whatever follows the last part
//! is accepted only when a wildcard ends the pattern. Backslashes are
//! normalized to forward slashes before matching, so paths compare the same
//! on every platform.

use vstd::prelude::*;

use crate::outside::chars_to_string;

verus! {

/// The leftmost position where `needle` occurs in `hay`, if it occurs.
pub open spec fn spec_find(hay: Seq<char>, needle: Seq<char>) -> Option<int>
    decreases hay.len(),
{
    if needle.len() > hay.len() {
        None
    } else if hay.len() == 0 {
        Some(0)
    } else if hay.take(needle.len() as int) == needle {
        Some(0)
    } else {
        match spec_find(hay.drop_first(), needle) {
            Some(k) => Some(k + 1),
            None => None,
        }
    }
}

/// Both backslash forms collapse to forward slashes: a pair of backslashes
/// becomes one slash, a lone backslash becomes one slash too.
pub open spec fn spec_normalize_slashes(s: Seq<char>) -> Seq<char>
    decreases s.len(),
{
    if s.len() == 0 {
        Seq::empty()
    } else if s[0] == '\\' {
        if s.len() > 1 && s[1] == '\\' {
            seq!['/'] + spec_normalize_slashes(s.skip(2))
        } else {
            seq!['/'] + spec_normalize_slashes(s.skip(1))
        }
    } else {
        seq![s[0]] + spec_normalize_slashes(s.skip(1))
    }
}

/// The wildcard pattern.
pub open spec fn wild_seq() -> Seq<char> {
    seq!['[', '.', '.', ']']
}

/// Whether pattern `exp` matches `act`: parts between wildcards are found
/// left to right, each at its leftmost position; `first` says whether the
/// part at hand is the pattern's first, which must match at the start.
pub open spec fn spec_wild_match(exp: Seq<char>, act: Seq<char>, first: bool) -> bool
    decreases exp.len(),
{
    match spec_find(exp, wild_seq()) {
        Some(wi) => {
            let part = exp.take(wi);
            let cut: int = if 0 <= wi && wi + 4 <= exp.len() {
                wi + 4
            } else {
                1
            };
            match spec_find(act, part) {
                None => false,
                Some(j) => if first && j != 0 {
                    false
                } else {
                    spec_wild_match(exp.skip(cut), act.skip(j + part.len()), false)
                },
            }
        },
        None => match spec_find(act, exp) {
            None => false,
            Some(j) => if first && j != 0 {
                false
            } else {
                act.skip(j + exp.len() as int).len() == 0 || (!first && exp.len() == 0)
            },
        },
    }
}

/// What [`lines_match`] decides: both lines normalized, then matched.
pub open spec fn spec_lines_match(expected: Seq<char>, actual: Seq<char>) -> bool {
    spec_wild_match(spec_normalize_slashes(expected), spec_normalize_slashes(actual), true)
}

/// The characters of a string, in order.
pub fn str_chars(s: &str) -> (r: Vec<char>)
    ensures
        r@ == s@,
{
    let n = s.unicode_len();
    let mut r: Vec<char> = Vec::new();
    let mut i: usize = 0;
    while i < n
        invariant
            n == s@.len(),
            i <= n,
            r@ == s@.take(i as int),
        decreases n - i,
    {
        let c = s.get_char(i);
        r.push(c);
        proof {
            assert(s@.take(i as int + 1) =~= s@.take(i as int).push(s@[i as int]));
        }
        i = i + 1;
    }
    proof {
        assert(s@.take(n as int) =~= s@);
    }
    r
}

/// Collapses backslashes to forward slashes, pairs first.
fn normalize_slashes(s: &Vec<char>) -> (r: Vec<char>)
    ensures
        r@ == spec_normalize_slashes(s@),
{
    let mut r: Vec<char> = Vec::new();
    let mut i: usize = 0;
    proof {
        assert(s@.skip(0) =~= s@);
        assert(r@ + spec_normalize_slashes(s@.skip(0)) =~= spec_normalize_slashes(s@));
    }
    while i < s.len()
        invariant
            i <= s@.len(),
            r@ + spec_normalize_slashes(s@.skip(i as int)) == spec_normalize_slashes(s@),
        decreases s@.len() - i,
    {
        let ghost rem = s@.skip(i as int);
        proof {
            assert(rem[0] == s@[i as int]);
            assert(rem.len() == s@.len() - i);
        }
        if s[i] == '\\' {
            r.push('/');
            if i + 1 < s.len() && s[i + 1] == '\\' {
                proof {
                    assert(rem[1] == s@[i as int + 1]);
                    assert(rem.skip(2) =~= s@.skip(i as int + 2));
                    assert(spec_normalize_slashes(rem) == seq!['/'] + spec_normalize_slashes(
                        rem.skip(2),
                    ));
                    assert(r@ + spec_normalize_slashes(s@.skip(i as int + 2))
                        =~= r@.drop_last() + spec_normalize_slashes(rem));
                }
                i = i + 2;
            } else {
                proof {
                    assert(rem.len() > 1 ==> rem[1] == s@[i as int + 1]);
                    assert(rem.skip(1) =~= s@.skip(i as int + 1));
                    assert(spec_normalize_slashes(rem) == seq!['/'] + spec_normalize_slashes(
                        rem.skip(1),
                    ));
                    assert(r@ + spec_normalize_slashes(s@.skip(i as int + 1))
                        =~= r@.drop_last() + spec_normalize_slashes(rem));
                }
                i = i + 1;
            }
        } else {
            r.push(s[i]);
            proof {
                assert(rem.skip(1) =~= s@.skip(i as int + 1));
                assert(spec_normalize_slashes(rem) == seq![rem[0]] + spec_normalize_slashes(
                    rem.skip(1),
                ));
                assert(r@ + spec_normalize_slashes(s@.skip(i as int + 1)) =~= r@.drop_last()
                    + spec_normalize_slashes(rem));
            }
            i = i + 1;
        }
    }
    proof {
        assert(s@.skip(s@.len() as int).len() == 0);
        assert(spec_normalize_slashes(s@.skip(s@.len() as int)) =~= Seq::<char>::empty());
        assert(r@ + Seq::<char>::empty() =~= r@);
    }
    r
}

/// The leftmost occurrence of `needle` in `hay`, if any.
fn find_sub(hay: &Vec<char>, needle: &Vec<char>) -> (r: Option<usize>)
    ensures
        r is Some <==> spec_find(hay@, needle@) is Some,
        r is Some ==> Some(r->0 as int) == spec_find(hay@, needle@),
{
    if needle.len() > hay.len() {
        return None;
    }
    let _hay_len: usize = hay.len();
    proof {
        assert(hay@.len() <= usize::MAX);
    }
    let mut i: usize = 0;
    proof {
        assert(hay@.skip(0) =~= hay@);
    }
    while i <= hay.len() - needle.len()
        invariant
            needle@.len() <= hay@.len(),
            hay@.len() <= usize::MAX,
            i <= hay@.len(),
            spec_find(hay@, needle@) == (match spec_find(hay@.skip(i as int), needle@) {
                Some(k) => Some(i + k),
                None => None::<int>,
            }),
        decreases hay@.len() - i,
    {
        let ghost rem = hay@.skip(i as int);
        let mut k: usize = 0;
        let mut matches = true;
        while k < needle.len() && matches
            invariant
                i + needle@.len() <= hay@.len(),
                hay@.len() <= usize::MAX,
                k <= needle@.len(),
                rem == hay@.skip(i as int),
                matches ==> forall|m: int| 0 <= m < k ==> hay@[i + m] == needle@[m],
                !matches ==> exists|m: int| 0 <= m < needle@.len() && hay@[i + m] != needle@[m],
            decreases needle@.len() - k + (if matches {
                1int
            } else {
                0int
            }),
        {
            proof {
                assert(i + k < hay@.len());
            }
            if hay[i + k] != needle[k] {
                matches = false;
            } else {
                k = k + 1;
            }
        }
        if matches {
            proof {
                assert forall|m: int| 0 <= m < needle@.len() implies rem.take(
                    needle@.len() as int,
                )[m] == needle@[m] by {
                    assert(rem[m] == hay@[i + m]);
                }
                assert(rem.take(needle@.len() as int) =~= needle@);
                assert(spec_find(rem, needle@) == Some(0int));
            }
            return Some(i);
        }
        proof {
            let m = choose|m: int| 0 <= m < needle@.len() && hay@[i + m] != needle@[m];
            assert(rem[m] == hay@[i + m]);
            assert(rem.take(needle@.len() as int)[m] == rem[m]);
            assert(rem.take(needle@.len() as int) != needle@);
            assert(rem.drop_first() =~= hay@.skip(i as int + 1));
            assert(spec_find(rem, needle@) == (match spec_find(rem.drop_first(), needle@) {
                Some(k2) => Some(k2 + 1),
                None => None::<int>,
            }));
        }
        i = i + 1;
    }
    proof {
        assert(needle@.len() > hay@.skip(i as int).len());
        assert(spec_find(hay@.skip(i as int), needle@) is None);
    }
    None
}

/// The suffix of `v` from `from` on.
pub fn suffix_chars(v: &Vec<char>, from: usize) -> (r: Vec<char>)
    requires
        from <= v@.len(),
    ensures
        r@ == v@.skip(from as int),
{
    let mut r: Vec<char> = Vec::new();
    let mut i: usize = from;
    while i < v.len()
        invariant
            from <= i <= v@.len(),
            r@ == v@.subrange(from as int, i as int),
        decreases v@.len() - i,
    {
        r.push(v[i]);
        proof {
            assert(v@.subrange(from as int, i as int + 1) =~= v@.subrange(
                from as int,
                i as int,
            ).push(v@[i as int]));
        }
        i = i + 1;
    }
    proof {
        assert(v@.subrange(from as int, v@.len() as int) =~= v@.skip(from as int));
    }
    r
}

/// The first `n` characters of `v`.
pub fn prefix_chars(v: &Vec<char>, n: usize) -> (r: Vec<char>)
    requires
        n <= v@.len(),
    ensures
        r@ == v@.take(n as int),
{
    let mut r: Vec<char> = Vec::new();
    let mut i: usize = 0;
    while i < n
        invariant
            i <= n <= v@.len(),
            r@ == v@.take(i as int),
        decreases n - i,
    {
        r.push(v[i]);
        proof {
            assert(v@.take(i as int + 1) =~= v@.take(i as int).push(v@[i as int]));
        }
        i = i + 1;
    }
    r
}

/// The wildcard pattern, as characters.
fn wild_chars() -> (r: Vec<char>)
    ensures
        r@ == wild_seq(),
{
    let mut r: Vec<char> = Vec::new();
    r.push('[');
    r.push('.');
    r.push('.');
    r.push(']');
    proof {
        assert(r@ =~= wild_seq());
    }
    r
}

/// Compares a line with an expected pattern. `[..]` in the pattern matches
/// zero or more characters, greedily left to right; backslashes on either
/// side are normalized to forward slashes first (as can occur in, for
/// example, JSON output of paths).
pub fn lines_match(expected: &str, actual: &str) -> (r: bool)
    ensures
        r == spec_lines_match(expected@, actual@),
{
    let expected_chars = str_chars(expected);
    let actual_chars = str_chars(actual);
    let mut exp = normalize_slashes(&expected_chars);
    let mut act = normalize_slashes(&actual_chars);
    let wild = wild_chars();
    let mut first = true;
    let ghost e0 = exp@;
    let ghost a0 = act@;
    loop
        invariant_except_break
            wild@ == wild_seq(),
            e0 == spec_normalize_slashes(expected@),
            a0 == spec_normalize_slashes(actual@),
            spec_wild_match(exp@, act@, first) == spec_wild_match(e0, a0, true),
        ensures
            spec_wild_match(e0, a0, true) == (match spec_find(act@, exp@) {
                None => false,
                Some(j) => if first && j != 0 {
                    false
                } else {
                    act@.skip(j + exp@.len() as int).len() == 0 || (!first && exp@.len() == 0)
                },
            }),
            spec_find(exp@, wild_seq()) is None,
        decreases exp@.len(),
    {
        match find_sub(&exp, &wild) {
            Some(wi) => {
                let _exp_len: usize = exp.len();
                proof {
                    assert(wild_seq().len() == 4);
                    lemma_spec_find_bound(exp@, wild_seq());
                    assert(exp@.len() <= usize::MAX);
                }
                let part = prefix_chars(&exp, wi);
                match find_sub(&act, &part) {
                    None => {
                        proof {
                            assert(!spec_wild_match(e0, a0, true));
                        }
                        return false;
                    },
                    Some(j) => {
                        if first && j != 0 {
                            proof {
                                assert(!spec_wild_match(e0, a0, true));
                            }
                            return false;
                        }
                        let _act_len: usize = act.len();
                        proof {
                            lemma_spec_find_bound(act@, part@);
                            assert(act@.len() <= usize::MAX);
                        }
                        let na = suffix_chars(&act, j + part.len());
                        let ne = suffix_chars(&exp, wi + 4);
                        act = na;
                        exp = ne;
                        first = false;
                    },
                }
            },
            None => {
                break;
            },
        }
    }
    match find_sub(&act, &exp) {
        None => false,
        Some(j) => {
            if first && j != 0 {
                false
            } else {
                proof {
                    lemma_spec_find_bound(act@, exp@);
                }
                let rest_len = act.len() - (j + exp.len());
                rest_len == 0 || (!first && exp.len() == 0)
            }
        },
    }
}

/// The cursor marker.
pub open spec fn marker_seq() -> Seq<char> {
    seq!['<', '|', '>']
}

/// The cursor marker, as characters.
fn marker_chars() -> (r: Vec<char>)
    ensures
        r@ == marker_seq(),
{
    let mut r: Vec<char> = Vec::new();
    r.push('<');
    r.push('|');
    r.push('>');
    proof {
        assert(r@ =~= marker_seq());
    }
    r
}

/// Where the first cursor marker sits and the text without it, if a marker
/// is there at all.
pub open spec fn spec_extract_offset(t: Seq<char>) -> Option<(int, Seq<char>)> {
    match spec_find(t, marker_seq()) {
        None => None,
        Some(i) => Some((i, t.take(i) + t.skip(i + 3))),
    }
}

/// The range between the first two cursor markers and the text without
/// both, if two markers are there.
pub open spec fn spec_extract_range(t: Seq<char>) -> Option<((int, int), Seq<char>)> {
    match spec_extract_offset(t) {
        None => None,
        Some((s, t1)) => match spec_extract_offset(t1) {
            None => None,
            Some((e, t2)) => Some(((s, e), t2)),
        },
    }
}

/// A span of text, by its start and end character positions.
#[derive(Debug, Clone, Copy, PartialEq, Eq, Structural)]
pub struct TextRange {
    pub start: u32,
    pub end: u32,
}

impl TextRange {
    /// A range from `start` to `end`; the start never lies past the end.
    pub fn new(start: u32, end: u32) -> (r: TextRange)
        requires
            start <= end,
        ensures
            r == (TextRange { start, end }),
    {
        TextRange { start, end }
    }

    /// The empty range sitting at `offset`.
    pub fn empty(offset: u32) -> (r: TextRange)
        ensures
            r == (TextRange { start: offset, end: offset }),
    {
        TextRange { start: offset, end: offset }
    }
}

/// A selection: either a proper range or a bare cursor position.
#[derive(Debug, Clone, Copy, PartialEq, Eq, Structural)]
pub enum RangeOrOffset {
    Range(TextRange),
    Offset(u32),
}

impl From<RangeOrOffset> for TextRange {
    /// A bare cursor position converts to the empty range sitting there.
    fn from(selection: RangeOrOffset) -> (r: TextRange)
        ensures
            r == (match selection {
                RangeOrOffset::Range(it) => it,
                RangeOrOffset::Offset(it) => TextRange { start: it, end: it },
            }),
    {
        match selection {
            RangeOrOffset::Range(it) => it,
            RangeOrOffset::Offset(it) => TextRange::empty(it),
        }
    }
}

impl vstd::std_specs::convert::FromSpecImpl<RangeOrOffset> for TextRange {
    open spec fn obeys_from_spec() -> bool {
        true
    }

    open spec fn from_spec(selection: RangeOrOffset) -> TextRange {
        match selection {
            RangeOrOffset::Range(it) => it,
            RangeOrOffset::Offset(it) => TextRange { start: it, end: it },
        }
    }
}

/// Returns the position of the first occurrence of the cursor marker and a
/// copy of the text without the marker, if a marker is there.
pub fn try_extract_offset(text: &str) -> (r: Option<(u32, String)>)
    requires
        text@.len() <= u32::MAX,
    ensures
        r is Some <==> spec_extract_offset(text@) is Some,
        r is Some ==> {
            let (i, t) = spec_extract_offset(text@)->0;
            (r->0).0 == i && (r->0).1@ == t
        },
{
    let chars = str_chars(text);
    let marker = marker_chars();
    match find_sub(&chars, &marker) {
        None => None,
        Some(i) => {
            proof {
                assert(marker_seq().len() == 3);
                lemma_spec_find_bound(chars@, marker_seq());
            }
            let mut kept = prefix_chars(&chars, i);
            let tail = suffix_chars(&chars, i + 3);
            let ghost pre = kept@;
            let mut t: usize = 0;
            while t < tail.len()
                invariant
                    t <= tail@.len(),
                    kept@ == pre + tail@.take(t as int),
                decreases tail@.len() - t,
            {
                kept.push(tail[t]);
                proof {
                    assert(pre + tail@.take(t as int + 1) =~= (pre + tail@.take(t as int)).push(
                        tail@[t as int],
                    ));
                }
                t = t + 1;
            }
            proof {
                assert(tail@.take(tail@.len() as int) =~= tail@);
            }
            let s = crate::outside::chars_to_string(&kept);
            Some((i as u32, s))
        },
    }
}

/// Returns the position of the first cursor marker and the text without it;
/// the text must contain a marker.
pub fn extract_offset(text: &str) -> (r: (u32, String))
    requires
        text@.len() <= u32::MAX,
        spec_extract_offset(text@) is Some,
    ensures
        ({
            let (i, t) = spec_extract_offset(text@)->0;
            r.0 == i && r.1@ == t
        }),
{
    match try_extract_offset(text) {
        Some(result) => result,
        None => {
            proof {
                assert(false);
            }
            (0, String::new())
        },
    }
}

/// Returns the range between the first two cursor markers and the text
/// without both, if two markers are there.
pub fn try_extract_range(text: &str) -> (r: Option<(TextRange, String)>)
    requires
        text@.len() <= u32::MAX,
        spec_extract_range(text@) matches Some(((s, e), _)) ==> s <= e,
    ensures
        r is Some <==> spec_extract_range(text@) is Some,
        r is Some ==> {
            let ((s, e), t) = spec_extract_range(text@)->0;
            (r->0).0 == (TextRange { start: s as u32, end: e as u32 }) && (r->0).1@ == t
        },
{
    match try_extract_offset(text) {
        None => None,
        Some((start, t1)) => {
            proof {
                assert(marker_seq().len() == 3);
                lemma_spec_find_bound(text@, marker_seq());
            }
            match try_extract_offset(t1.as_str()) {
                None => None,
                Some((end, t2)) => Some((TextRange::new(start, end), t2)),
            }
        },
    }
}

/// Returns the range between the first two cursor markers and the text
/// without both; the text must contain both, in order.
pub fn extract_range(text: &str) -> (r: (TextRange, String))
    requires
        text@.len() <= u32::MAX,
        spec_extract_range(text@) is Some,
        spec_extract_range(text@) matches Some(((s, e), _)) ==> s <= e,
    ensures
        ({
            let ((s, e), t) = spec_extract_range(text@)->0;
            r.0 == (TextRange { start: s as u32, end: e as u32 }) && r.1@ == t
        }),
{
    match try_extract_range(text) {
        Some(result) => result,
        None => {
            proof {
                assert(false);
            }
            (TextRange { start: 0, end: 0 }, String::new())
        },
    }
}

/// Extracts a range or a bare offset, depending on how many cursor markers
/// the text holds; the text must hold at least one.
pub fn extract_range_or_offset(text: &str) -> (r: (RangeOrOffset, String))
    requires
        text@.len() <= u32::MAX,
        spec_extract_offset(text@) is Some,
        spec_extract_range(text@) matches Some(((s, e), _)) ==> s <= e,
    ensures
        (match spec_extract_range(text@) {
            Some(((s, e), t)) => r.0 == RangeOrOffset::Range(
                TextRange { start: s as u32, end: e as u32 },
            ) && r.1@ == t,
            None => {
                let (i, t) = spec_extract_offset(text@)->0;
                r.0 == RangeOrOffset::Offset(i as u32) && r.1@ == t
            },
        }),
{
    match try_extract_range(text) {
        Some((range, text2)) => (RangeOrOffset::Range(range), text2),
        None => {
            let (offset, text2) = extract_offset(text);
            (RangeOrOffset::Offset(offset), text2)
        },
    }
}

/// The text with `what` spliced in at `offset`.
pub open spec fn spec_insert(t: Seq<char>, offset: int, what: Seq<char>) -> Seq<char> {
    t.take(offset) + what + t.skip(offset)
}

/// Splices `what` into `text` at `offset`.
pub fn insert_text(text: &str, offset: u32, what: &str) -> (r: String)
    requires
        offset <= text@.len(),
    ensures
        r@ == spec_insert(text@, offset as int, what@),
{
    let chars = str_chars(text);
    let insert = str_chars(what);
    let mut kept = prefix_chars(&chars, offset as usize);
    let ghost p1 = kept@;
    let mut t: usize = 0;
    while t < insert.len()
        invariant
            t <= insert@.len(),
            kept@ == p1 + insert@.take(t as int),
        decreases insert@.len() - t,
    {
        kept.push(insert[t]);
        proof {
            assert(p1 + insert@.take(t as int + 1) =~= (p1 + insert@.take(t as int)).push(
                insert@[t as int],
            ));
        }
        t = t + 1;
    }
    let tail = suffix_chars(&chars, offset as usize);
    let ghost p2 = kept@;
    let mut u: usize = 0;
    while u < tail.len()
        invariant
            u <= tail@.len(),
            kept@ == p2 + tail@.take(u as int),
        decreases tail@.len() - u,
    {
        kept.push(tail[u]);
        proof {
            assert(p2 + tail@.take(u as int + 1) =~= (p2 + tail@.take(u as int)).push(
                tail@[u as int],
            ));
        }
        u = u + 1;
    }
    proof {
        assert(insert@.take(insert@.len() as int) =~= insert@);
        assert(tail@.take(tail@.len() as int) =~= tail@);
        assert(kept@ =~= text@.take(offset as int) + what@ + text@.skip(offset as int));
    }
    crate::outside::chars_to_string(&kept)
}

/// Inserts a cursor marker into the text at `offset`.
pub fn add_cursor(text: &str, offset: u32) -> (r: String)
    requires
        offset <= text@.len(),
    ensures
        r@ == spec_insert(text@, offset as int, marker_seq()),
{
    let r = insert_text(text, offset, "<|>");
    proof {
        reveal_strlit("<|>");
        assert("<|>"@ =~= marker_seq());
    }
    r
}

/// Structural equality of two character lists.
pub fn chars_eq(a: &Vec<char>, b: &Vec<char>) -> (r: bool)
    ensures
        r == (a@ == b@),
{
    if a.len() != b.len() {
        return false;
    }
    let mut i: usize = 0;
    while i < a.len()
        invariant
            a@.len() == b@.len(),
            i <= a@.len(),
            forall|j: int| 0 <= j < i ==> a@[j] == b@[j],
        decreases a@.len() - i,
    {
        if a[i] != b[i] {
            return false;
        }
        i = i + 1;
    }
    proof {
        assert(a@ =~= b@);
    }
    true
}

/// Whether `s` starts with `p`.
pub open spec fn spec_starts_with(s: Seq<char>, p: Seq<char>) -> bool {
    p.len() <= s.len() && s.take(p.len() as int) == p
}

/// Whether `s` ends with `p`.
pub open spec fn spec_ends_with(s: Seq<char>, p: Seq<char>) -> bool {
    p.len() <= s.len() && s.skip(s.len() - p.len()) == p
}

/// Whether the characters start with the given prefix.
pub fn starts_with(s: &Vec<char>, p: &Vec<char>) -> (r: bool)
    ensures
        r == spec_starts_with(s@, p@),
{
    if p.len() > s.len() {
        return false;
    }
    let pre = prefix_chars(s, p.len());
    chars_eq(&pre, p)
}

/// Whether the characters end with the given suffix.
pub fn ends_with(s: &Vec<char>, p: &Vec<char>) -> (r: bool)
    ensures
        r == spec_ends_with(s@, p@),
{
    if p.len() > s.len() {
        return false;
    }
    let suf = suffix_chars(s, s.len() - p.len());
    chars_eq(&suf, p)
}

/// The opening tag `<tag>`.
pub open spec fn open_tag(tag: Seq<char>) -> Seq<char> {
    seq!['<'] + tag + seq!['>']
}

/// The closing tag `</tag>`.
pub open spec fn close_tag(tag: Seq<char>) -> Seq<char> {
    seq!['<', '/'] + tag + seq!['>']
}

/// One pass of the tag scanner: text before the next `<` goes into `res`,
/// an opening tag pushes the position reached so far, a closing tag pops it
/// and records the range. `None` where the scan gets stuck or a tag has no
/// partner — inputs on which the extraction is not defined.
pub open spec fn spec_scan_tags(
    t: Seq<char>,
    tag: Seq<char>,
    stack: Seq<u32>,
    res: Seq<char>,
    acc: Seq<TextRange>,
) -> Option<(Seq<TextRange>, Seq<char>)>
    decreases t.len(),
{
    match spec_find(t, seq!['<']) {
        None => if stack.len() == 0 {
            Some((acc, res + t))
        } else {
            None
        },
        Some(i) => {
            if !(0 <= i < t.len()) {
                None
            } else {
                let res2 = res + t.take(i);
                let t2 = t.skip(i);
                if spec_starts_with(t2, open_tag(tag)) {
                    spec_scan_tags(
                        t2.skip(open_tag(tag).len() as int),
                        tag,
                        stack.push(res2.len() as u32),
                        res2,
                        acc,
                    )
                } else if spec_starts_with(t2, close_tag(tag)) {
                    if stack.len() == 0 {
                        None
                    } else {
                        spec_scan_tags(
                            t2.skip(close_tag(tag).len() as int),
                            tag,
                            stack.drop_last(),
                            res2,
                            acc.push(TextRange { start: stack.last(), end: res2.len() as u32 }),
                        )
                    }
                } else {
                    None
                }
            }
        },
    }
}

/// What extracting the ranges of `tag` from `text` yields, before sorting.
pub open spec fn spec_extract_ranges(t: Seq<char>, tag: Seq<char>) -> Option<
    (Seq<TextRange>, Seq<char>),
> {
    spec_scan_tags(t, tag, Seq::empty(), Seq::empty(), Seq::empty())
}

/// A range's sort key: start first, end second.
pub open spec fn range_le(a: TextRange, b: TextRange) -> bool {
    a.start < b.start || (a.start == b.start && a.end <= b.end)
}

/// `x` inserted behind every range that does not come after it.
pub open spec fn spec_sorted_insert_range(s: Seq<TextRange>, x: TextRange) -> Seq<TextRange>
    decreases s.len(),
{
    if s.len() == 0 {
        seq![x]
    } else if !range_le(s[0], x) {
        seq![x] + s
    } else {
        seq![s[0]] + spec_sorted_insert_range(s.drop_first(), x)
    }
}

/// The ranges sorted by start, then end, keeping equal ranges in order.
pub open spec fn spec_sort_ranges(s: Seq<TextRange>) -> Seq<TextRange>
    decreases s.len(),
{
    if s.len() == 0 {
        Seq::empty()
    } else {
        spec_sorted_insert_range(spec_sort_ranges(s.drop_last()), s.last())
    }
}

/// Inserts a range into a sorted list of ranges.
fn sorted_insert_range(v: &mut Vec<TextRange>, x: TextRange)
    ensures
        final(v)@ == spec_sorted_insert_range(old(v)@, x),
{
    let ghost v0 = old(v)@;
    let mut i: usize = 0;
    proof {
        assert(v@.skip(0) =~= v@);
        assert(v@.take(0) + spec_sorted_insert_range(v@.skip(0), x) =~= spec_sorted_insert_range(
            v0,
            x,
        ));
    }
    while i < v.len() && (v[i].start < x.start || (v[i].start == x.start && v[i].end <= x.end))
        invariant
            i <= v@.len(),
            v@ == v0,
            v@.take(i as int) + spec_sorted_insert_range(v@.skip(i as int), x)
                == spec_sorted_insert_range(v0, x),
            forall|j: int| 0 <= j < i ==> range_le(#[trigger] v@[j], x),
        decreases v@.len() - i,
    {
        proof {
            assert(v@.skip(i as int)[0] == v@[i as int]);
            assert(v@.skip(i as int).drop_first() =~= v@.skip(i as int + 1));
            assert(v@.take(i as int + 1) =~= v@.take(i as int).push(v@[i as int]));
            assert(v@.take(i as int) + (seq![v@[i as int]] + spec_sorted_insert_range(
                v@.skip(i as int + 1),
                x,
            )) =~= v@.take(i as int + 1) + spec_sorted_insert_range(v@.skip(i as int + 1), x));
        }
        i = i + 1;
    }
    proof {
        if i < v@.len() {
            assert(v@.skip(i as int)[0] == v@[i as int]);
            assert(spec_sorted_insert_range(v@.skip(i as int), x) == seq![x] + v@.skip(i as int));
        } else {
            assert(v@.skip(i as int).len() == 0);
            assert(spec_sorted_insert_range(v@.skip(i as int), x) == seq![x]);
            assert(seq![x] =~= seq![x] + v@.skip(i as int));
        }
        assert(v@.insert(i as int, x) =~= v@.take(i as int) + (seq![x] + v@.skip(i as int)));
    }
    v.insert(i, x);
}

/// Extracts the ranges marked by `<tag>`/`</tag>` pairs from the text: the
/// ranges sorted by position, and the text without the tags. The text must
/// scan cleanly — every `<` starts one of the two tags, and the tags pair up.
pub fn extract_ranges(text: &str, tag: &str) -> (r: (Vec<TextRange>, String))
    requires
        text@.len() <= u32::MAX,
        spec_extract_ranges(text@, tag@) is Some,
    ensures
        ({
            let (acc, res) = spec_extract_ranges(text@, tag@)->0;
            r.0@ == spec_sort_ranges(acc) && r.1@ == res
        }),
{
    let chars = str_chars(text);
    let tag_chars = str_chars(tag);
    let mut open: Vec<char> = Vec::new();
    open.push('<');
    let mut oi: usize = 0;
    while oi < tag_chars.len()
        invariant
            oi <= tag_chars@.len(),
            tag_chars@ == tag@,
            open@ == seq!['<'] + tag@.take(oi as int),
        decreases tag_chars@.len() - oi,
    {
        open.push(tag_chars[oi]);
        proof {
            assert(seq!['<'] + tag@.take(oi as int + 1) =~= (seq!['<'] + tag@.take(
                oi as int,
            )).push(tag@[oi as int]));
        }
        oi = oi + 1;
    }
    open.push('>');
    proof {
        assert(tag@.take(tag@.len() as int) =~= tag@);
        assert(open@ =~= open_tag(tag@));
    }
    let mut close: Vec<char> = Vec::new();
    close.push('<');
    close.push('/');
    let mut ci: usize = 0;
    while ci < tag_chars.len()
        invariant
            ci <= tag_chars@.len(),
            tag_chars@ == tag@,
            close@ == seq!['<', '/'] + tag@.take(ci as int),
        decreases tag_chars@.len() - ci,
    {
        close.push(tag_chars[ci]);
        proof {
            assert(seq!['<', '/'] + tag@.take(ci as int + 1) =~= (seq!['<', '/'] + tag@.take(
                ci as int,
            )).push(tag@[ci as int]));
        }
        ci = ci + 1;
    }
    close.push('>');
    proof {
        assert(tag@.take(tag@.len() as int) =~= tag@);
        assert(close@ =~= close_tag(tag@));
    }
    let marker = {
        let mut m: Vec<char> = Vec::new();
        m.push('<');
        proof {
            assert(m@ =~= seq!['<']);
        }
        m
    };
    let mut rest = chars;
    let mut stack: Vec<u32> = Vec::new();
    let mut res: Vec<char> = Vec::new();
    let mut acc: Vec<TextRange> = Vec::new();
    proof {
        assert(stack@ =~= Seq::<u32>::empty());
        assert(res@ =~= Seq::<char>::empty());
        assert(acc@ =~= Seq::<TextRange>::empty());
    }
    loop
        invariant_except_break
            text@.len() <= u32::MAX,
            open@ == open_tag(tag@),
            close@ == close_tag(tag@),
            marker@ == seq!['<'],
            res@.len() + rest@.len() <= text@.len(),
            spec_scan_tags(rest@, tag@, stack@, res@, acc@) == spec_extract_ranges(text@, tag@),
            spec_extract_ranges(text@, tag@) is Some,
        ensures
            Some((acc@, res@)) == spec_extract_ranges(text@, tag@),
        decreases rest@.len(),
    {
        let ghost rest0 = rest@;
        let ghost stack0 = stack@;
        let ghost res0 = res@;
        let ghost acc0 = acc@;
        match find_sub(&rest, &marker) {
            None => {
                proof {
                    assert(stack@.len() == 0) by {
                        if stack@.len() > 0 {
                            assert(spec_scan_tags(rest@, tag@, stack@, res@, acc@) is None);
                        }
                    }
                }
                let rl = rest.len();
                copy_chars(&mut res, &rest, rl);
                proof {
                    assert(rest0.take(rest0.len() as int) =~= rest0);
                    assert(res@ == res0 + rest0);
                    assert(spec_scan_tags(rest0, tag@, stack0, res0, acc0) == Some(
                        (acc0, res0 + rest0),
                    ));
                }
                break;
            },
            Some(i) => {
                proof {
                    lemma_spec_find_bound(rest@, seq!['<']);
                }
                copy_chars(&mut res, &rest, i);
                proof {
                    assert(res@ == res0 + rest0.take(i as int));
                    assert(res@.len() <= u32::MAX);
                }
                let t2 = suffix_chars(&rest, i);
                if starts_with(&t2, &open) {
                    stack.push(res.len() as u32);
                    let nr = suffix_chars(&t2, open.len());
                    rest = nr;
                    proof {
                        assert(rest@ =~= rest0.skip(i as int).skip(open_tag(tag@).len() as int));
                        assert(spec_scan_tags(rest0, tag@, stack0, res0, acc0) == spec_scan_tags(
                            rest@,
                            tag@,
                            stack@,
                            res@,
                            acc@,
                        ));
                        assert(rest@.len() < rest0.len());
                    }
                } else if starts_with(&t2, &close) {
                    if stack.len() == 0 {
                        proof {
                            assert(!spec_starts_with(rest0.skip(i as int), open_tag(tag@)));
                            assert(spec_scan_tags(rest0, tag@, stack0, res0, acc0) is None);
                            assert(false);
                        }
                        return (Vec::new(), String::new());
                    }
                    let from = stack[stack.len() - 1];
                    stack.pop();
                    proof {
                        assert(from == stack0.last());
                    }
                    acc.push(TextRange { start: from, end: res.len() as u32 });
                    let nr = suffix_chars(&t2, close.len());
                    rest = nr;
                    proof {
                        assert(!spec_starts_with(rest0.skip(i as int), open_tag(tag@)));
                        assert(rest@ =~= rest0.skip(i as int).skip(close_tag(tag@).len() as int));
                        assert(acc@ =~= acc0.push(
                            TextRange { start: stack0.last(), end: res@.len() as u32 },
                        ));
                        assert(spec_scan_tags(rest0, tag@, stack0, res0, acc0) == spec_scan_tags(
                            rest@,
                            tag@,
                            stack@,
                            res@,
                            acc@,
                        ));
                        assert(rest@.len() < rest0.len());
                    }
                } else {
                    proof {
                        assert(!spec_starts_with(rest0.skip(i as int), open_tag(tag@)));
                        assert(!spec_starts_with(rest0.skip(i as int), close_tag(tag@)));
                        assert(spec_scan_tags(rest0, tag@, stack0, res0, acc0) is None);
                        assert(false);
                    }
                    return (Vec::new(), String::new());
                }
            },
        }
    }
    let ghost acc0 = acc@;
    let mut sorted: Vec<TextRange> = Vec::new();
    let mut k: usize = 0;
    proof {
        assert(sorted@ =~= spec_sort_ranges(acc@.take(0)));
    }
    while k < acc.len()
        invariant
            k <= acc@.len(),
            sorted@ == spec_sort_ranges(acc@.take(k as int)),
        decreases acc@.len() - k,
    {
        sorted_insert_range(&mut sorted, acc[k]);
        proof {
            assert(acc@.take(k as int + 1).drop_last() =~= acc@.take(k as int));
            assert(acc@.take(k as int + 1).last() == acc@[k as int]);
        }
        k = k + 1;
    }
    proof {
        assert(acc@.take(acc@.len() as int) =~= acc@);
    }
    (sorted, crate::outside::chars_to_string(&res))
}

/// Appends the first `upto` characters of `src` to `dst`.
fn copy_chars(dst: &mut Vec<char>, src: &Vec<char>, upto: usize)
    requires
        upto <= src@.len(),
    ensures
        final(dst)@ == old(dst)@ + src@.take(upto as int),
{
    let mut i: usize = 0;
    proof {
        assert(old(dst)@ + src@.take(0) =~= old(dst)@);
    }
    while i < upto
        invariant
            upto <= src@.len(),
            i <= upto,
            dst@ == old(dst)@ + src@.take(i as int),
        decreases upto - i,
    {
        dst.push(src[i]);
        proof {
            assert(old(dst)@ + src@.take(i as int + 1) =~= (old(dst)@ + src@.take(i as int)).push(
                src@[i as int],
            ));
        }
        i = i + 1;
    }
}

/// A found occurrence lies within the haystack.
proof fn lemma_spec_find_bound(hay: Seq<char>, needle: Seq<char>)
    requires
        spec_find(hay, needle) is Some,
    ensures
        0 <= spec_find(hay, needle)->0,
        spec_find(hay, needle)->0 + needle.len() <= hay.len(),
    decreases hay.len(),
{
    if needle.len() > hay.len() {
    } else if hay.len() == 0 {
    } else if hay.take(needle.len() as int) == needle {
    } else {
        if spec_find(hay.drop_first(), needle) is Some {
            lemma_spec_find_bound(hay.drop_first(), needle);
        }
    }
}

} // verus!
