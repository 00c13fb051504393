//! The path addressing language: a path is a sequence of segments, each a
//! mapping key or a sequence index.
//!
//! Serialization joins segments with `.`, renders an index as `[n]`, and
//! brackets a key whose text contains `.` so that it stays re-parseable.
//! Parsing scans left to right, tracking one level of bracket nesting, and
//! turns a bracket group into an index segment exactly when its text is a
//! whole number and it sits at the end of its dotted item.

use vstd::prelude::*;
use vstd::string::StrSliceExecFns;
use vstd::string::StringExecFns;
use crate::digits::{spec_digits, spec_parse_usize, usize_to_string, parse_usize_range};

verus! {

/// Mathematical image of a path segment.
#[verifier::ext_equal]
pub enum ItemKeyV {
    Index(int),
    Key(Seq<char>),
}

/// Component of a path in the document hierarchy: either an array index or
/// a mapping key.
#[derive(PartialEq, Clone, Debug)]
pub enum ItemKey {
    Index(usize),
    Key(String),
}

impl View for ItemKey {
    type V = ItemKeyV;

    open spec fn view(&self) -> ItemKeyV {
        match self {
            ItemKey::Index(i) => ItemKeyV::Index(*i as int),
            ItemKey::Key(s) => ItemKeyV::Key(s@),
        }
    }
}

impl ItemKey {
    /// An owned copy of this segment.
    pub fn duplicate(&self) -> (r: ItemKey)
        ensures
            r@ == self@,
    {
        match self {
            ItemKey::Index(i) => ItemKey::Index(*i),
            ItemKey::Key(s) => ItemKey::Key(s.clone()),
        }
    }
}

impl From<&str> for ItemKey {
    /// A key segment with the given text.
    fn from(name: &str) -> (r: ItemKey)
        ensures
            r@ == ItemKeyV::Key(name@),
    {
        ItemKey::Key(name.to_owned())
    }
}

impl vstd::std_specs::convert::FromSpecImpl<&str> for ItemKey {
    open spec fn obeys_from_spec() -> bool {
        false
    }

    open spec fn from_spec(name: &str) -> ItemKey {
        arbitrary()
    }
}

impl From<usize> for ItemKey {
    /// An index segment.
    fn from(index: usize) -> (r: ItemKey)
        ensures
            r@ == ItemKeyV::Index(index as int),
    {
        ItemKey::Index(index)
    }
}

impl vstd::std_specs::convert::FromSpecImpl<usize> for ItemKey {
    open spec fn obeys_from_spec() -> bool {
        true
    }

    open spec fn from_spec(index: usize) -> ItemKey {
        ItemKey::Index(index)
    }
}

/// The image of a sequence of segments.
pub open spec fn items_view(s: Seq<ItemKey>) -> Seq<ItemKeyV> {
    s.map_values(|k: ItemKey| k@)
}

/// A path in the document hierarchy, as a vector of segments; the root is
/// the empty path.
#[derive(PartialEq, Clone, Debug)]
pub struct KeyPath(pub Vec<ItemKey>);

impl View for KeyPath {
    type V = Seq<ItemKeyV>;

    open spec fn view(&self) -> Seq<ItemKeyV> {
        items_view(self.0@)
    }
}

/// The text of one segment: `[n]` for an index; for a key, a `.` separator
/// unless the segment opens the path, then the key's text, bracketed when
/// it contains a `.` of its own.
pub open spec fn seg_text(k: ItemKeyV, first: bool) -> Seq<char> {
    match k {
        ItemKeyV::Index(n) => "["@ + spec_digits(n as nat) + "]"@,
        ItemKeyV::Key(s) => (if first {
            Seq::<char>::empty()
        } else {
            "."@
        }) + (if s.contains('.') {
            "["@ + s + "]"@
        } else {
            s
        }),
    }
}

pub open spec fn ser_from(p: Seq<ItemKeyV>, first: bool) -> Seq<char>
    decreases p.len(),
{
    if p.len() == 0 {
        Seq::empty()
    } else {
        seg_text(p[0], first) + ser_from(p.drop_first(), false)
    }
}

/// The serialized text of a whole path.
pub open spec fn spec_serialize(p: Seq<ItemKeyV>) -> Seq<char> {
    ser_from(p, true)
}

/// Serialization processes segments one at a time: appending a segment
/// appends its text.
pub proof fn lemma_ser_from_snoc(p: Seq<ItemKeyV>, k: ItemKeyV, first: bool)
    ensures
        ser_from(p.push(k), first) == ser_from(p, first) + seg_text(
            k,
            if p.len() == 0 {
                first
            } else {
                false
            },
        ),
    decreases p.len(),
{
    if p.len() == 0 {
        assert(p.push(k)[0] == k);
        assert(p.push(k).drop_first() =~= Seq::<ItemKeyV>::empty());
        assert(ser_from(p.push(k), first) == seg_text(k, first) + ser_from(
            Seq::<ItemKeyV>::empty(),
            false,
        ));
        assert(seg_text(k, first) + Seq::<char>::empty() =~= seg_text(k, first));
        assert(ser_from(p, first) + seg_text(k, first) =~= seg_text(k, first));
    } else {
        assert(p.push(k)[0] == p[0]);
        assert(p.push(k).drop_first() =~= p.drop_first().push(k));
        lemma_ser_from_snoc(p.drop_first(), k, false);
        assert(ser_from(p.push(k), first) == seg_text(p[0], first) + (ser_from(p.drop_first(), false)
            + seg_text(k, false)));
        assert(seg_text(p[0], first) + (ser_from(p.drop_first(), false) + seg_text(k, false)) =~= (
        seg_text(p[0], first) + ser_from(p.drop_first(), false)) + seg_text(k, false));
    }
}

/// Whether the text of a string contains a `.`.
fn string_contains_dot(s: &String) -> (r: bool)
    ensures
        r == s@.contains('.'),
{
    let t: &str = s.as_str();
    let n = t.unicode_len();
    let mut i: usize = 0;
    while i < n
        invariant
            i <= n,
            n == s@.len(),
            t@ == s@,
            forall|j: int| 0 <= j < i ==> s@[j] != '.',
        decreases n - i,
    {
        if t.get_char(i) == '.' {
            return true;
        }
        i = i + 1;
    }
    assert(!s@.contains('.'));
    false
}

impl KeyPath {
    /// The empty path, addressing the root of a document.
    pub fn new() -> (r: KeyPath)
        ensures
            r@ == Seq::<ItemKeyV>::empty(),
    {
        let r = KeyPath(Vec::new());
        proof {
            assert(r@ =~= Seq::<ItemKeyV>::empty());
        }
        r
    }

    /// An owned copy of this path.
    pub fn duplicate(&self) -> (r: KeyPath)
        ensures
            r@ == self@,
    {
        let r = KeyPath(duplicate_items(&self.0));
        proof {
            assert(r@ =~= self@);
        }
        r
    }

    /// A copy of this path with one more segment at its end.
    pub fn push(&self, key: ItemKey) -> (r: KeyPath)
        ensures
            r@ == self@.push(key@),
    {
        let mut newvec = duplicate_items(&self.0);
        newvec.push(key);
        let r = KeyPath(newvec);
        proof {
            assert(r@ =~= self@.push(key@));
        }
        r
    }

    /// A copy of this path cut down to its first `len` segments; a longer
    /// `len` copies the whole path.
    pub fn truncated(&self, len: usize) -> (r: KeyPath)
        ensures
            r@ == if len <= self@.len() {
                self@.take(len as int)
            } else {
                self@
            },
    {
        let mut newvec = duplicate_items(&self.0);
        newvec.truncate(len);
        let r = KeyPath(newvec);
        proof {
            if len <= self@.len() {
                assert(r@ =~= self@.take(len as int));
            } else {
                assert(r@ =~= self@);
            }
        }
        r
    }

    /// Parses a path text into its segments.
    pub fn parse(pathstr: &str) -> (r: KeyPath)
        ensures
            r@ == spec_parse(pathstr@),
    {
        let chars = chars_of(pathstr);
        let n = chars.len();
        let mut path: Vec<ItemKey> = Vec::new();
        let mut item: Vec<char> = Vec::new();
        let mut braces: Vec<Brace> = Vec::new();
        let mut bnest: usize = 0;
        let mut bstart: usize = 0;
        let mut bpos: usize = 0;
        let mut i: usize = 0;
        proof {
            assert(chars@.take(0) =~= Seq::<char>::empty());
            assert(items_view(path@) =~= Seq::<ItemKeyV>::empty());
            assert(braces_view(braces@, chars@) =~= Seq::<(int, Seq<char>)>::empty());
        }
        while i < n
            invariant
                i <= n,
                n == chars@.len(),
                chars@ == pathstr@,
                bnest <= i,
                braces_ok(braces@, n as int),
                ({
                    let st = st_run(st_init(), chars@.take(i as int));
                    &&& items_view(path@) == st.path
                    &&& item@ == st.item
                    &&& braces_view(braces@, chars@) == st.braces
                    &&& (bnest == 0 <==> st.bctx is None)
                    &&& (bnest > 0 ==> bpos <= i && st.bctx == Some(
                        (bnest as int, bstart as int, chars@.subrange(bpos as int, i as int)),
                    ))
                }),
            decreases n - i,
        {
            let ghost st_pre = st_run(st_init(), chars@.take(i as int));
            proof {
                lemma_run_snoc(st_init(), chars@.take(i as int), chars@[i as int]);
                assert(chars@.take(i as int + 1) =~= chars@.take(i as int).push(chars@[i as int]));
            }
            let c = chars[i];
            if c == '[' {
                if bnest == 0 {
                    bpos = i + 1;
                    bstart = item.len();
                }
                bnest = bnest + 1;
                proof {
                    assert(chars@.subrange(i as int + 1, i as int + 1) =~= Seq::<char>::empty());
                    if st_pre.bctx is Some {
                        assert(chars@.subrange(bpos as int, i as int + 1) =~= chars@.subrange(
                            bpos as int,
                            i as int,
                        ).push('['));
                    }
                }
            } else if c == ']' {
                if bnest > 0 {
                    bnest = bnest - 1;
                    if bnest == 0 {
                        braces.push(Brace { bstart, lo: bpos, hi: i });
                        proof {
                            let ghost pre = braces@.drop_last();
                            assert(braces_view(braces@, chars@) =~= braces_view(pre, chars@).push(
                                (bstart as int, chars@.subrange(bpos as int, i as int)),
                            ));
                        }
                    } else {
                        proof {
                            assert(chars@.subrange(bpos as int, i as int + 1) =~= chars@.subrange(
                                bpos as int,
                                i as int,
                            ).push(']'));
                        }
                    }
                }
            } else if c == '.' && bnest == 0 {
                complete_item(&mut path, &mut item, &mut braces, &chars);
                proof {
                    assert(st_step(st_pre, c) == st_complete(st_pre));
                }
            } else {
                item.push(c);
                proof {
                    if st_pre.bctx is Some {
                        assert(chars@.subrange(bpos as int, i as int + 1) =~= chars@.subrange(
                            bpos as int,
                            i as int,
                        ).push(c));
                    }
                }
            }
            i = i + 1;
        }
        proof {
            assert(chars@.take(n as int) =~= chars@);
        }
        complete_item(&mut path, &mut item, &mut braces, &chars);
        let r = KeyPath(path);
        proof {
            assert(r@ == spec_parse(pathstr@));
        }
        r
    }

    /// Renders the path as text.
    pub fn to_text(&self) -> (r: String)
        ensures
            r@ == spec_serialize(self@),
    {
        let r = self.prefix_text(self.0.len());
        proof {
            assert(self@.take(self@.len() as int) =~= self@);
        }
        r
    }

    /// Renders the path's first `upto` segments as text.
    pub fn prefix_text(&self, upto: usize) -> (r: String)
        requires
            upto <= self@.len(),
        ensures
            r@ == spec_serialize(self@.take(upto as int)),
    {
        let mut out = String::new();
        let mut i: usize = 0;
        let n = upto;
        while i < n
            invariant
                i <= n,
                n == upto <= self.0@.len(),
                self@.len() == self.0@.len(),
                self@ == items_view(self.0@),
                out@ == ser_from(self@.take(i as int), true),
            decreases n - i,
        {
            proof {
                lemma_ser_from_snoc(self@.take(i as int), self@[i as int], true);
                assert(self@.take(i as int + 1) =~= self@.take(i as int).push(self@[i as int]));
            }
            match &self.0[i] {
                ItemKey::Index(u) => {
                    out.append("[");
                    let d = usize_to_string(*u);
                    out.append(d.as_str());
                    out.append("]");
                    proof {
                        assert(out@ =~= ser_from(self@.take(i as int), true) + seg_text(
                            self@[i as int],
                            i == 0,
                        ));
                    }
                },
                ItemKey::Key(s) => {
                    if i > 0 {
                        out.append(".");
                    }
                    if string_contains_dot(s) {
                        out.append("[");
                        out.append(s.as_str());
                        out.append("]");
                    } else {
                        out.append(s.as_str());
                    }
                    proof {
                        assert(out@ =~= ser_from(self@.take(i as int), true) + seg_text(
                            self@[i as int],
                            i == 0,
                        ));
                    }
                },
            }
            i = i + 1;
        }
        out
    }
}

/// The parser's state: the segments completed so far, the text of the
/// dotted item being accumulated, the bracket context while inside a
/// bracket group (depth, start offset of the group's text within the item,
/// and the group's captured text), and the bracket groups captured for the
/// current item (each with its start offset within the item).
#[verifier::ext_equal]
pub struct StV {
    pub path: Seq<ItemKeyV>,
    pub item: Seq<char>,
    pub bctx: Option<(int, int, Seq<char>)>,
    pub braces: Seq<(int, Seq<char>)>,
}

pub open spec fn st_init() -> StV {
    StV {
        path: Seq::empty(),
        item: Seq::empty(),
        bctx: None,
        braces: Seq::empty(),
    }
}

/// Strips captured bracket groups off the end of an item, last first: a
/// group whose text sits exactly at the end of the item and reads as a
/// whole number becomes an index segment and its text is cut off; any
/// other group is dropped without effect. Returns the remaining item text
/// and the emitted segments, in emission order.
pub open spec fn strip(item: Seq<char>, braces: Seq<(int, Seq<char>)>) -> (Seq<char>, Seq<
    ItemKeyV,
>)
    decreases braces.len(),
{
    if braces.len() == 0 {
        (item, Seq::empty())
    } else {
        let b = braces.last();
        let rest = braces.drop_last();
        if b.0 + b.1.len() == item.len() && spec_parse_usize(b.1) is Some {
            let n = spec_parse_usize(b.1)->0;
            let inner = strip(item.take(item.len() - b.1.len()), rest);
            (inner.0, seq![ItemKeyV::Index(n as int)] + inner.1)
        } else {
            strip(item, rest)
        }
    }
}

/// Completes the current dotted item: if its text is empty nothing happens
/// (captured groups are kept); otherwise trailing numeric groups become
/// index segments, whatever text remains becomes one key segment, and the
/// segments join the path in source order.
pub open spec fn st_complete(st: StV) -> StV {
    if st.item.len() == 0 {
        st
    } else {
        let stripped = strip(st.item, st.braces);
        let emitted = if stripped.0.len() > 0 {
            stripped.1.push(ItemKeyV::Key(stripped.0))
        } else {
            stripped.1
        };
        StV {
            path: st.path + emitted.reverse(),
            item: Seq::empty(),
            bctx: st.bctx,
            braces: Seq::empty(),
        }
    }
}

/// One step of the scan.
pub open spec fn st_step(st: StV, c: char) -> StV {
    if c == '[' {
        match st.bctx {
            None => StV { bctx: Some((1int, st.item.len() as int, Seq::empty())), ..st },
            Some((d, bs, bb)) => StV { bctx: Some((d + 1, bs, bb.push('['))), ..st },
        }
    } else if c == ']' {
        match st.bctx {
            None => st,
            Some((d, bs, bb)) => {
                if d == 1 {
                    StV { bctx: None, braces: st.braces.push((bs, bb)), ..st }
                } else {
                    StV { bctx: Some((d - 1, bs, bb.push(']'))), ..st }
                }
            },
        }
    } else if c == '.' && st.bctx is None {
        st_complete(st)
    } else {
        StV {
            item: st.item.push(c),
            bctx: match st.bctx {
                None => None,
                Some((d, bs, bb)) => Some((d, bs, bb.push(c))),
            },
            ..st
        }
    }
}

pub open spec fn st_run(st: StV, s: Seq<char>) -> StV
    decreases s.len(),
{
    if s.len() == 0 {
        st
    } else {
        st_run(st_step(st, s[0]), s.drop_first())
    }
}

/// The segments denoted by a path text.
pub open spec fn spec_parse(s: Seq<char>) -> Seq<ItemKeyV> {
    st_complete(st_run(st_init(), s)).path
}

/// Running the scan over `s` then one more character takes one more step.
pub proof fn lemma_run_snoc(st: StV, s: Seq<char>, c: char)
    ensures
        st_run(st, s.push(c)) == st_step(st_run(st, s), c),
    decreases s.len(),
{
    if s.len() == 0 {
        assert(s.push(c)[0] == c);
        assert(s.push(c).drop_first() =~= Seq::<char>::empty());
        assert(st_run(st, s.push(c)) == st_run(st_step(st, c), Seq::<char>::empty()));
        assert(st_run(st_step(st, c), Seq::<char>::empty()) == st_step(st, c));
        assert(st_run(st, s) == st);
    } else {
        assert(s.push(c)[0] == s[0]);
        assert(s.push(c).drop_first() =~= s.drop_first().push(c));
        lemma_run_snoc(st_step(st, s[0]), s.drop_first(), c);
        assert(st_run(st, s.push(c)) == st_run(st_step(st, s[0]), s.drop_first().push(c)));
        assert(st_run(st, s) == st_run(st_step(st, s[0]), s.drop_first()));
    }
}

/// Running over a concatenation runs over each part in turn.
pub proof fn lemma_run_app(st: StV, s1: Seq<char>, s2: Seq<char>)
    ensures
        st_run(st, s1 + s2) == st_run(st_run(st, s1), s2),
    decreases s2.len(),
{
    if s2.len() == 0 {
        assert(s1 + s2 =~= s1);
        assert(st_run(st_run(st, s1), s2) == st_run(st, s1));
    } else {
        lemma_run_app(st, s1, s2.drop_last());
        lemma_run_snoc(st_run(st, s1), s2.drop_last(), s2.last());
        assert(s1 + s2 =~= (s1 + s2.drop_last()).push(s2.last()));
        lemma_run_snoc(st, s1 + s2.drop_last(), s2.last());
        assert(s2.drop_last().push(s2.last()) =~= s2);
        lemma_run_snoc(st_run(st, s1), s2.drop_last(), s2.last());
    }
}

/// A captured bracket group of the scanner, as offsets: `bstart` within
/// the current item's text, `lo..hi` within the whole input.
struct Brace {
    bstart: usize,
    lo: usize,
    hi: usize,
}

/// The image of the captured groups, each with its text read back from the
/// input.
spec fn braces_view(bs: Seq<Brace>, s: Seq<char>) -> Seq<(int, Seq<char>)> {
    bs.map_values(|b: Brace| (b.bstart as int, s.subrange(b.lo as int, b.hi as int)))
}

spec fn braces_ok(bs: Seq<Brace>, n: int) -> bool {
    forall|j: int| 0 <= j < bs.len() ==> {
        &&& (#[trigger] bs[j]).lo <= bs[j].hi
        &&& bs[j].hi <= n
    }
}

/// Completes the current item in the running parser, mirroring
/// [`st_complete`].
fn complete_item(
    path: &mut Vec<ItemKey>,
    item: &mut Vec<char>,
    braces: &mut Vec<Brace>,
    chars: &Vec<char>,
)
    requires
        braces_ok(old(braces)@, chars@.len() as int),
    ensures
        braces_ok(final(braces)@, chars@.len() as int),
        ({
            let st0 = StV {
                path: items_view(old(path)@),
                item: old(item)@,
                bctx: None,
                braces: braces_view(old(braces)@, chars@),
            };
            let st1 = st_complete(st0);
            &&& items_view(final(path)@) == st1.path
            &&& final(item)@ == st1.item
            &&& braces_view(final(braces)@, chars@) == st1.braces
        }),
{
    let ghost st0 = StV {
        path: items_view(path@),
        item: item@,
        bctx: None,
        braces: braces_view(braces@, chars@),
    };
    if item.len() == 0 {
        return ;
    }
    let ghost full = strip(st0.item, st0.braces);
    let mut emitted: Vec<ItemKey> = Vec::new();
    while braces.len() > 0
        invariant
            braces_ok(braces@, chars@.len() as int),
            full == strip(st0.item, st0.braces),
            full.0 == strip(item@, braces_view(braces@, chars@)).0,
            full.1 == items_view(emitted@) + strip(item@, braces_view(braces@, chars@)).1,
        decreases braces@.len(),
    {
        let ghost pre_braces = braces@;
        let ghost pre_item = item@;
        let b = braces.pop().unwrap();
        proof {
            assert(braces_view(braces@, chars@) =~= braces_view(pre_braces, chars@).drop_last());
            assert(braces_view(pre_braces, chars@).last() == (
                b.bstart as int,
                chars@.subrange(b.lo as int, b.hi as int),
            ));
        }
        let blen = b.hi - b.lo;
        if blen <= item.len() && b.bstart == item.len() - blen {
            let parsed = parse_usize_range(chars, b.lo, b.hi);
            if let Some(nval) = parsed {
                emitted.push(ItemKey::Index(nval));
                item.truncate(item.len() - blen);
                proof {
                    let bv = (b.bstart as int, chars@.subrange(b.lo as int, b.hi as int));
                    assert(bv.0 + bv.1.len() == pre_item.len());
                    assert(item@ =~= pre_item.take(pre_item.len() - bv.1.len()));
                    assert(strip(pre_item, braces_view(pre_braces, chars@)) == (
                        strip(item@, braces_view(braces@, chars@)).0,
                        seq![ItemKeyV::Index(nval as int)] + strip(
                            item@,
                            braces_view(braces@, chars@),
                        ).1,
                    ));
                    assert(items_view(emitted@) =~= items_view(emitted@.drop_last()).push(
                        ItemKeyV::Index(nval as int),
                    ));
                    assert(items_view(emitted@.drop_last()).push(ItemKeyV::Index(nval as int))
                        + strip(item@, braces_view(braces@, chars@)).1 =~= items_view(
                        emitted@.drop_last(),
                    ) + (seq![ItemKeyV::Index(nval as int)] + strip(
                        item@,
                        braces_view(braces@, chars@),
                    ).1));
                }
            } else {
                proof {
                    let bv = (b.bstart as int, chars@.subrange(b.lo as int, b.hi as int));
                    assert(spec_parse_usize(bv.1) is None);
                    assert(strip(pre_item, braces_view(pre_braces, chars@)) == strip(
                        item@,
                        braces_view(braces@, chars@),
                    ));
                }
            }
        } else {
            proof {
                let bv = (b.bstart as int, chars@.subrange(b.lo as int, b.hi as int));
                assert(bv.1.len() == b.hi - b.lo);
                assert(bv.0 + bv.1.len() != item@.len());
                assert(strip(pre_item, braces_view(pre_braces, chars@)) == strip(
                    item@,
                    braces_view(braces@, chars@),
                ));
            }
        }
    }
    proof {
        assert(braces_view(braces@, chars@) =~= Seq::<(int, Seq<char>)>::empty());
        assert(strip(item@, braces_view(braces@, chars@)) == (item@, Seq::<ItemKeyV>::empty()));
        assert(full.1 =~= items_view(emitted@));
        assert(full.0 == item@);
    }
    if item.len() > 0 {
        let key = string_from_chars(item);
        emitted.push(ItemKey::Key(key));
        proof {
            assert(items_view(emitted@) =~= full.1.push(ItemKeyV::Key(full.0)));
        }
    }
    item.clear();
    let ghost emitted2 = if full.0.len() > 0 {
        full.1.push(ItemKeyV::Key(full.0))
    } else {
        full.1
    };
    let ghost path0 = items_view(path@);
    let ghost total = emitted@.len() as int;
    proof {
        assert(items_view(emitted@) == emitted2);
        assert(emitted2.reverse().take(0) =~= Seq::<ItemKeyV>::empty());
        assert(path0 + emitted2.reverse().take(0) =~= path0);
    }
    while emitted.len() > 0
        invariant
            emitted@.len() <= total,
            emitted2.len() == total,
            items_view(emitted@) == emitted2.take(emitted@.len() as int),
            items_view(path@) == path0 + emitted2.reverse().take(total - emitted@.len()),
        decreases emitted@.len(),
    {
        let ghost pre = emitted@;
        let k = emitted.pop().unwrap();
        path.push(k);
        proof {
            assert(items_view(emitted@) =~= items_view(pre).drop_last());
            assert(items_view(pre).drop_last() =~= emitted2.take(emitted@.len() as int));
            let done = total - pre.len() as int;
            assert(k@ == items_view(pre).last());
            assert(k@ == emitted2[pre.len() - 1]);
            assert(emitted2.reverse()[done] == emitted2[total - 1 - done]);
            assert(items_view(path@) =~= (path0 + emitted2.reverse().take(done)).push(
                emitted2.reverse()[done],
            ));
            assert((path0 + emitted2.reverse().take(done)).push(emitted2.reverse()[done]) =~= path0
                + emitted2.reverse().take(done + 1));
        }
    }
    proof {
        assert(emitted2.reverse().take(total) =~= emitted2.reverse());
        assert(items_view(path@) == path0 + emitted2.reverse());
    }
}

/// Relies on `String::from_iter` over `Chars`: collecting a vector of
/// characters yields the string of exactly those characters in order.
#[verifier::external_body]
fn string_from_chars(v: &Vec<char>) -> (r: String)
    ensures
        r@ == v@,
{
    v.iter().collect()
}

/// The characters of a string, in order.
fn chars_of(s: &str) -> (r: Vec<char>)
    ensures
        r@ == s@,
{
    let n = s.unicode_len();
    let mut v: Vec<char> = Vec::new();
    let mut i: usize = 0;
    while i < n
        invariant
            i <= n,
            n == s@.len(),
            v@ =~= s@.take(i as int),
        decreases n - i,
    {
        let c = s.get_char(i);
        v.push(c);
        proof {
            assert(v@ =~= s@.take(i as int + 1));
        }
        i = i + 1;
    }
    proof {
        assert(s@.take(n as int) =~= s@);
    }
    v
}

// ---------------------------------------------------------------------
// The round-trip law: parsing the serialized text of a path yields the
// path back, for every path whose keys are non-empty and free of square
// brackets and whose indices fit the machine's word.
// ---------------------------------------------------------------------
/// A key text that serialization can protect: non-empty and without
/// square brackets.
pub open spec fn plain_key(s: Seq<char>) -> bool {
    s.len() > 0 && !s.contains('[') && !s.contains(']')
}

/// A segment that round-trips: a plain key, or an index a `usize` can
/// hold.
pub open spec fn rt_seg_ok(k: ItemKeyV) -> bool {
    match k {
        ItemKeyV::Index(n) => 0 <= n <= usize::MAX as int,
        ItemKeyV::Key(s) => plain_key(s),
    }
}

pub open spec fn rt_ok(p: Seq<ItemKeyV>) -> bool {
    forall|i: int| 0 <= i < p.len() ==> rt_seg_ok(#[trigger] p[i])
}

spec fn plain_chars(s: Seq<char>) -> bool {
    forall|i: int|
        0 <= i < s.len() ==> (#[trigger] s[i]) != '[' && s[i] != ']' && s[i] != '.'
}

spec fn no_brackets(s: Seq<char>) -> bool {
    forall|i: int| 0 <= i < s.len() ==> (#[trigger] s[i]) != '[' && s[i] != ']'
}

/// The number of index segments at the front of `p`.
spec fn idx_prefix_len(p: Seq<ItemKeyV>) -> int
    decreases p.len(),
{
    if p.len() == 0 || !(p[0] is Index) {
        0
    } else {
        1 + idx_prefix_len(p.drop_first())
    }
}

proof fn lemma_idx_prefix(p: Seq<ItemKeyV>)
    ensures
        0 <= idx_prefix_len(p) <= p.len(),
        forall|i: int| 0 <= i < idx_prefix_len(p) ==> (#[trigger] p[i]) is Index,
        idx_prefix_len(p) < p.len() ==> p[idx_prefix_len(p)] is Key,
    decreases p.len(),
{
    if p.len() > 0 && p[0] is Index {
        lemma_idx_prefix(p.drop_first());
        let m = idx_prefix_len(p);
        assert(m == 1 + idx_prefix_len(p.drop_first()));
        assert forall|i: int| 0 <= i < m implies (#[trigger] p[i]) is Index by {
            if i > 0 {
                assert(p.drop_first()[i - 1] == p[i]);
                assert(p.drop_first()[i - 1] is Index);
            }
        }
        if m < p.len() {
            assert(p.drop_first()[m - 1] is Key);
            assert(p[m] == p.drop_first()[m - 1]);
        }
    } else if p.len() > 0 {
        assert(p[0] is Key);
    }
}

spec fn all_index(p: Seq<ItemKeyV>) -> bool {
    forall|i: int| 0 <= i < p.len() ==> (#[trigger] p[i]) is Index
}

/// The concatenated digit texts of a run of index segments.
spec fn decs(ixs: Seq<ItemKeyV>) -> Seq<char>
    decreases ixs.len(),
{
    if ixs.len() == 0 {
        Seq::empty()
    } else {
        spec_digits(ixs[0]->Index_0 as nat) + decs(ixs.drop_first())
    }
}

/// The bracket groups that scanning a run of index texts captures, when
/// the item already holds `off` characters.
spec fn ixbraces(off: int, ixs: Seq<ItemKeyV>) -> Seq<(int, Seq<char>)>
    decreases ixs.len(),
{
    if ixs.len() == 0 {
        Seq::empty()
    } else {
        seq![(off, spec_digits(ixs[0]->Index_0 as nat))] + ixbraces(
            off + spec_digits(ixs[0]->Index_0 as nat).len(),
            ixs.drop_first(),
        )
    }
}

/// The bracket groups that scanning a key text captures: one, when the
/// key is bracketed.
spec fn keybraces(k: Seq<char>) -> Seq<(int, Seq<char>)> {
    if k.contains('.') {
        seq![(0int, k)]
    } else {
        Seq::empty()
    }
}

proof fn lemma_decs_snoc(ixs: Seq<ItemKeyV>, x: ItemKeyV)
    ensures
        decs(ixs.push(x)) == decs(ixs) + spec_digits(x->Index_0 as nat),
    decreases ixs.len(),
{
    if ixs.len() == 0 {
        assert(ixs.push(x)[0] == x);
        assert(ixs.push(x).drop_first() =~= Seq::<ItemKeyV>::empty());
        assert(decs(ixs.push(x).drop_first()) == decs(Seq::<ItemKeyV>::empty()));
        assert(decs(Seq::<ItemKeyV>::empty()) == Seq::<char>::empty());
        assert(decs(ixs.push(x)) == spec_digits(x->Index_0 as nat) + Seq::<char>::empty());
        assert(spec_digits(x->Index_0 as nat) + Seq::<char>::empty() =~= spec_digits(
            x->Index_0 as nat,
        ));
        assert(decs(ixs) =~= Seq::<char>::empty());
        assert(decs(ixs) + spec_digits(x->Index_0 as nat) =~= spec_digits(x->Index_0 as nat));
    } else {
        assert(ixs.push(x)[0] == ixs[0]);
        assert(ixs.push(x).drop_first() =~= ixs.drop_first().push(x));
        lemma_decs_snoc(ixs.drop_first(), x);
        assert(decs(ixs.push(x)) == spec_digits(ixs[0]->Index_0 as nat) + decs(
            ixs.drop_first().push(x),
        ));
        assert(decs(ixs) == spec_digits(ixs[0]->Index_0 as nat) + decs(ixs.drop_first()));
        assert(spec_digits(ixs[0]->Index_0 as nat) + (decs(ixs.drop_first()) + spec_digits(
            x->Index_0 as nat,
        )) =~= (spec_digits(ixs[0]->Index_0 as nat) + decs(ixs.drop_first())) + spec_digits(
            x->Index_0 as nat,
        ));
    }
}

proof fn lemma_ixbraces_snoc(off: int, ixs: Seq<ItemKeyV>, x: ItemKeyV)
    ensures
        ixbraces(off, ixs.push(x)) == ixbraces(off, ixs).push(
            (off + decs(ixs).len(), spec_digits(x->Index_0 as nat)),
        ),
    decreases ixs.len(),
{
    if ixs.len() == 0 {
        assert(ixs.push(x)[0] == x);
        assert(ixs.push(x).drop_first() =~= Seq::<ItemKeyV>::empty());
        assert(ixbraces(off + spec_digits(x->Index_0 as nat).len(), ixs.push(x).drop_first())
            == ixbraces(
            off + spec_digits(x->Index_0 as nat).len(),
            Seq::<ItemKeyV>::empty(),
        ));
        assert(ixbraces(off + spec_digits(x->Index_0 as nat).len(), Seq::<ItemKeyV>::empty())
            == Seq::<(int, Seq<char>)>::empty());
        assert(decs(ixs) == Seq::<char>::empty());
        assert(ixbraces(off, ixs) == Seq::<(int, Seq<char>)>::empty());
        assert(ixbraces(off, ixs.push(x)) =~= ixbraces(off, ixs).push(
            (off + decs(ixs).len(), spec_digits(x->Index_0 as nat)),
        ));
    } else {
        assert(ixs.push(x)[0] == ixs[0]);
        assert(ixs.push(x).drop_first() =~= ixs.drop_first().push(x));
        lemma_ixbraces_snoc(off + spec_digits(ixs[0]->Index_0 as nat).len(), ixs.drop_first(), x);
        lemma_decs_snoc(ixs.drop_first(), x);
        assert(ixbraces(off, ixs.push(x)) == seq![
            (off, spec_digits(ixs[0]->Index_0 as nat)),
        ] + ixbraces(
            off + spec_digits(ixs[0]->Index_0 as nat).len(),
            ixs.drop_first().push(x),
        ));
        assert(ixbraces(off, ixs) == seq![(off, spec_digits(ixs[0]->Index_0 as nat))] + ixbraces(
            off + spec_digits(ixs[0]->Index_0 as nat).len(),
            ixs.drop_first(),
        ));
        assert(decs(ixs).len() == spec_digits(ixs[0]->Index_0 as nat).len() + decs(
            ixs.drop_first(),
        ).len()) by {
            assert(decs(ixs) == spec_digits(ixs[0]->Index_0 as nat) + decs(ixs.drop_first()));
        }
        assert(ixbraces(off, ixs.push(x)) =~= ixbraces(off, ixs).push(
            (off + decs(ixs).len(), spec_digits(x->Index_0 as nat)),
        ));
    }
}

/// Serialized text splits at any segment boundary.
proof fn lemma_ser_split(p: Seq<ItemKeyV>, j: int, first: bool)
    requires
        0 <= j <= p.len(),
    ensures
        ser_from(p, first) == ser_from(p.take(j), first) + ser_from(
            p.skip(j),
            if j == 0 {
                first
            } else {
                false
            },
        ),
    decreases j,
{
    if j == 0 {
        assert(p.take(0) =~= Seq::<ItemKeyV>::empty());
        assert(p.skip(0) =~= p);
        assert(ser_from(p.take(0), first) + ser_from(p, first) =~= ser_from(p, first));
    } else {
        assert(p.len() > 0);
        lemma_ser_split(p.drop_first(), j - 1, false);
        assert(p.take(j)[0] == p[0]);
        assert(p.take(j).drop_first() =~= p.drop_first().take(j - 1));
        assert(p.skip(j) =~= p.drop_first().skip(j - 1));
        assert(ser_from(p, first) == seg_text(p[0], first) + ser_from(p.drop_first(), false));
        assert(seg_text(p[0], first) + (ser_from(p.drop_first().take(j - 1), false) + ser_from(
            p.drop_first().skip(j - 1),
            if j == 1 {
                false
            } else {
                false
            },
        )) =~= (seg_text(p[0], first) + ser_from(p.drop_first().take(j - 1), false)) + ser_from(
            p.drop_first().skip(j - 1),
            false,
        ));
    }
}

/// A non-opening key segment's text is a dot followed by the text the
/// segment would have at the opening position.
proof fn lemma_ser_undot(p: Seq<ItemKeyV>)
    requires
        p.len() > 0,
        p[0] is Key,
    ensures
        ser_from(p, false) == "."@ + ser_from(p, true),
{
    reveal_strlit(".");
    let k = p[0]->Key_0;
    assert(seg_text(p[0], false) =~= "."@ + seg_text(p[0], true));
    assert(("."@ + seg_text(p[0], true)) + ser_from(p.drop_first(), false) =~= "."@ + (seg_text(
        p[0],
        true,
    ) + ser_from(p.drop_first(), false)));
}

/// Scanning a one-character text takes one step.
proof fn lemma_run_one(st: StV, c: char, s: Seq<char>)
    requires
        s.len() == 1,
        s[0] == c,
    ensures
        st_run(st, s) == st_step(st, c),
{
    assert(s.drop_first() =~= Seq::<char>::empty());
    assert(st_run(st, s) == st_run(st_step(st, c), s.drop_first()));
    assert(st_run(st_step(st, c), Seq::<char>::empty()) == st_step(st, c));
}

/// Scanning characters that are neither brackets nor dots, outside any
/// bracket group, only extends the item text.
proof fn lemma_plain_run(st: StV, s: Seq<char>)
    requires
        st.bctx is None,
        plain_chars(s),
    ensures
        st_run(st, s) == (StV { item: st.item + s, ..st }),
    decreases s.len(),
{
    if s.len() == 0 {
        assert(st.item + s =~= st.item);
        assert(StV { item: st.item + s, ..st } =~= st);
    } else {
        let c = s[0];
        assert(c != '[' && c != ']' && c != '.');
        let st1 = st_step(st, c);
        assert(st1 == StV { item: st.item.push(c), ..st });
        assert(plain_chars(s.drop_first())) by {
            assert(forall|i: int|
                0 <= i < s.len() - 1 ==> #[trigger] s.drop_first()[i] == s[i + 1]);
        }
        lemma_plain_run(st1, s.drop_first());
        assert(st.item.push(c) + s.drop_first() =~= st.item + s);
    }
}

/// Scanning characters that are not brackets, inside a depth-one bracket
/// group, extends the item text and the group's capture alike.
proof fn lemma_bracket_run(st: StV, s: Seq<char>, bs: int, bb: Seq<char>)
    requires
        st.bctx == Some((1int, bs, bb)),
        no_brackets(s),
    ensures
        st_run(st, s) == (StV { item: st.item + s, bctx: Some((1int, bs, bb + s)), ..st }),
    decreases s.len(),
{
    if s.len() == 0 {
        assert(st.item + s =~= st.item);
        assert(bb + s =~= bb);
        assert(StV { item: st.item + s, bctx: Some((1int, bs, bb + s)), ..st } =~= st);
    } else {
        let c = s[0];
        assert(c != '[' && c != ']');
        let st1 = st_step(st, c);
        assert(st1 == StV { item: st.item.push(c), bctx: Some((1int, bs, bb.push(c))), ..st });
        assert(no_brackets(s.drop_first())) by {
            assert(forall|i: int|
                0 <= i < s.len() - 1 ==> #[trigger] s.drop_first()[i] == s[i + 1]);
        }
        lemma_bracket_run(st1, s.drop_first(), bs, bb.push(c));
        assert(st.item.push(c) + s.drop_first() =~= st.item + s);
        assert(bb.push(c) + s.drop_first() =~= bb + s);
    }
}

proof fn lemma_digits_plain(n: nat)
    ensures
        plain_chars(spec_digits(n)),
        no_brackets(spec_digits(n)),
{
    crate::digits::lemma_spec_digits_all_digits(n);
    assert forall|i: int| 0 <= i < spec_digits(n).len() implies (#[trigger] spec_digits(n)[i])
        != '[' && spec_digits(n)[i] != ']' && spec_digits(n)[i] != '.' by {
        assert(crate::digits::is_digit(spec_digits(n)[i]));
        assert('[' as u32 == 91 && ']' as u32 == 93 && '.' as u32 == 46);
    }
}

/// Scanning one key segment's text from a state between items leaves the
/// key as the item text, with one captured group when it was bracketed.
proof fn lemma_key_run(st: StV, k: Seq<char>, first: bool)
    requires
        st.bctx is None,
        st.item.len() == 0,
        st.braces.len() == 0,
        plain_key(k),
    ensures
        st_run(st, seg_text(ItemKeyV::Key(k), first)) == (StV {
            item: k,
            braces: keybraces(k),
            ..st
        }),
{
    reveal_strlit(".");
    reveal_strlit("[");
    reveal_strlit("]");
    let sep: Seq<char> = if first {
        Seq::<char>::empty()
    } else {
        "."@
    };
    let body: Seq<char> = if k.contains('.') {
        "["@ + k + "]"@
    } else {
        k
    };
    assert(seg_text(ItemKeyV::Key(k), first) == sep + body);
    lemma_run_app(st, sep, body);
    let st_a = st_run(st, sep);
    assert(st_a == st) by {
        if first {
            assert(sep.len() == 0);
        } else {
            assert(sep.len() == 1 && sep[0] == '.');
            lemma_run_one(st, '.', sep);
            assert(st_step(st, '.') == st_complete(st));
            assert(st_complete(st) == st);
        }
    }
    if k.contains('.') {
        assert(body == "["@ + k + "]"@);
        assert(body =~= "["@ + (k + "]"@));
        lemma_run_app(st, "["@, k + "]"@);
        assert("["@.len() == 1 && "["@[0] == '[');
        let st_b = st_step(st, '[');
        lemma_run_one(st, '[', "["@);
        assert(st_run(st, "["@) == st_b);
        assert(st_b == StV { bctx: Some((1int, 0int, Seq::<char>::empty())), ..st });
        lemma_run_app(st_b, k, "]"@);
        assert(no_brackets(k));
        lemma_bracket_run(st_b, k, 0int, Seq::<char>::empty());
        let st_c = st_run(st_b, k);
        assert(st_c == StV {
            item: st.item + k,
            bctx: Some((1int, 0int, Seq::<char>::empty() + k)),
            ..st
        });
        assert(st.item + k =~= k);
        assert(Seq::<char>::empty() + k =~= k);
        assert("]"@.len() == 1 && "]"@[0] == ']');
        let st_d = st_step(st_c, ']');
        lemma_run_one(st_c, ']', "]"@);
        assert(st_run(st_c, "]"@) == st_d);
        assert(st_d == StV { bctx: None, braces: st.braces.push((0int, k)), ..st_c });
        assert(st.braces.push((0int, k)) =~= keybraces(k));
        assert(st_d =~= StV { item: k, braces: keybraces(k), ..st });
        assert(st_run(st, body) == st_run(st_b, k + "]"@)) by {
            lemma_run_app(st, "["@, k + "]"@);
        }
        lemma_run_app(st_b, k, "]"@);
        assert(st_run(st_b, k + "]"@) == st_run(st_c, "]"@));
        assert(st_run(st, body) == st_d);
        assert(st_run(st, seg_text(ItemKeyV::Key(k), first)) == st_run(st_a, body));
        assert(st_run(st_a, body) == st_run(st, body));
    } else {
        assert(plain_chars(k)) by {
            assert(forall|i: int| 0 <= i < k.len() ==> (#[trigger] k[i]) != '.') by {
                assert(!k.contains('.'));
            }
        }
        lemma_plain_run(st, k);
        assert(st.item + k =~= k);
        assert(keybraces(k) =~= st.braces);
        assert(st_run(st, body) =~= StV { item: k, braces: keybraces(k), ..st });
        assert(st_run(st, seg_text(ItemKeyV::Key(k), first)) == st_run(st_a, body));
        assert(st_run(st_a, body) == st_run(st, body));
    }
}

/// Scanning a run of index texts appends their digits to the item and
/// captures one group per index.
proof fn lemma_idx_run(st: StV, ixs: Seq<ItemKeyV>)
    requires
        st.bctx is None,
        all_index(ixs),
        rt_ok(ixs),
    ensures
        st_run(st, ser_from(ixs, false)) == (StV {
            item: st.item + decs(ixs),
            braces: st.braces + ixbraces(st.item.len() as int, ixs),
            ..st
        }),
    decreases ixs.len(),
{
    reveal_strlit("[");
    reveal_strlit("]");
    if ixs.len() == 0 {
        assert(st.item + decs(ixs) =~= st.item);
        assert(st.braces + ixbraces(st.item.len() as int, ixs) =~= st.braces);
        assert(st_run(st, ser_from(ixs, false)) == st);
        assert(StV {
            item: st.item + decs(ixs),
            braces: st.braces + ixbraces(st.item.len() as int, ixs),
            ..st
        } =~= st);
    } else {
        let n = ixs[0]->Index_0;
        let d = spec_digits(n as nat);
        assert(seg_text(ixs[0], false) == "["@ + d + "]"@) by {
            assert(ixs[0] is Index);
        }
        assert(ser_from(ixs, false) == ("["@ + d + "]"@) + ser_from(ixs.drop_first(), false));
        lemma_run_app(st, "["@ + d + "]"@, ser_from(ixs.drop_first(), false));
        assert("["@ + d + "]"@ =~= "["@ + (d + "]"@));
        lemma_run_app(st, "["@, d + "]"@);
        assert("["@.len() == 1 && "["@[0] == '[');
        let st_b = st_step(st, '[');
        lemma_run_one(st, '[', "["@);
        assert(st_run(st, "["@) == st_b);
        assert(st_b == StV {
            bctx: Some((1int, st.item.len() as int, Seq::<char>::empty())),
            ..st
        });
        lemma_run_app(st_b, d, "]"@);
        lemma_digits_plain(n as nat);
        lemma_bracket_run(st_b, d, st.item.len() as int, Seq::<char>::empty());
        let st_c = st_run(st_b, d);
        assert(Seq::<char>::empty() + d =~= d);
        assert(st_c == StV {
            item: st.item + d,
            bctx: Some((1int, st.item.len() as int, d)),
            ..st
        });
        assert("]"@.len() == 1 && "]"@[0] == ']');
        let st_d = st_step(st_c, ']');
        lemma_run_one(st_c, ']', "]"@);
        assert(st_run(st_c, "]"@) == st_d);
        assert(st_d == StV {
            bctx: None,
            braces: st.braces.push((st.item.len() as int, d)),
            item: st.item + d,
            path: st.path,
        });
        assert(all_index(ixs.drop_first()) && rt_ok(ixs.drop_first())) by {
            assert(forall|i: int|
                0 <= i < ixs.len() - 1 ==> #[trigger] ixs.drop_first()[i] == ixs[i + 1]);
        }
        lemma_idx_run(st_d, ixs.drop_first());
        assert(st_run(st, "["@ + d + "]"@) == st_run(st_b, d + "]"@));
        lemma_run_app(st_b, d, "]"@);
        assert(st_run(st_b, d + "]"@) == st_run(st_c, "]"@));
        assert(st_run(st, "["@ + d + "]"@) == st_d);
        assert(st_run(st, ser_from(ixs, false)) == st_run(st_d, ser_from(ixs.drop_first(), false)));
        assert(st_run(st, ser_from(ixs, false)) == StV {
            item: (st.item + d) + decs(ixs.drop_first()),
            braces: st.braces.push((st.item.len() as int, d)) + ixbraces(
                (st.item + d).len() as int,
                ixs.drop_first(),
            ),
            bctx: None,
            path: st.path,
        });
        assert((st.item + d) + decs(ixs.drop_first()) =~= st.item + decs(ixs));
        assert(st.braces.push((st.item.len() as int, d)) + ixbraces(
            (st.item + d).len() as int,
            ixs.drop_first(),
        ) =~= st.braces + ixbraces(st.item.len() as int, ixs)) by {
            assert(ixbraces(st.item.len() as int, ixs) == seq![
                (st.item.len() as int, d),
            ] + ixbraces(st.item.len() as int + d.len(), ixs.drop_first()));
            assert((st.item + d).len() as int == st.item.len() as int + d.len());
        }
    }
}

/// Stripping the groups of a run of indexes off the item peels them in
/// reverse order.
proof fn lemma_strip_ix(t: Seq<char>, b0: Seq<(int, Seq<char>)>, ixs: Seq<ItemKeyV>)
    requires
        all_index(ixs),
        rt_ok(ixs),
    ensures
        strip(t + decs(ixs), b0 + ixbraces(t.len() as int, ixs)) == (
            strip(t, b0).0,
            ixs.reverse() + strip(t, b0).1,
        ),
    decreases ixs.len(),
{
    if ixs.len() == 0 {
        assert(t + decs(ixs) =~= t);
        assert(b0 + ixbraces(t.len() as int, ixs) =~= b0);
        assert(ixs.reverse() =~= Seq::<ItemKeyV>::empty());
        assert(ixs.reverse() + strip(t, b0).1 =~= strip(t, b0).1);
    } else {
        let front = ixs.drop_last();
        let x = ixs.last();
        let n = x->Index_0;
        assert(x is Index && rt_seg_ok(x));
        assert(front.push(x) =~= ixs);
        lemma_decs_snoc(front, x);
        lemma_ixbraces_snoc(t.len() as int, front, x);
        assert(all_index(front) && rt_ok(front)) by {
            assert(forall|i: int| 0 <= i < front.len() ==> #[trigger] front[i] == ixs[i]);
        }
        let item = t + decs(ixs);
        let braces = b0 + ixbraces(t.len() as int, ixs);
        let lastb = (t.len() as int + decs(front).len(), spec_digits(n as nat));
        assert(ixbraces(t.len() as int, ixs) == ixbraces(t.len() as int, front).push(lastb));
        assert(braces =~= (b0 + ixbraces(t.len() as int, front)).push(lastb));
        assert(braces.last() == lastb);
        assert(braces.drop_last() =~= b0 + ixbraces(t.len() as int, front));
        assert(item.len() == t.len() + decs(front).len() + spec_digits(n as nat).len()) by {
            assert(decs(ixs) == decs(front) + spec_digits(n as nat));
        }
        assert(lastb.0 + lastb.1.len() == item.len());
        crate::digits::lemma_parse_of_digits(n as usize);
        assert(spec_parse_usize(lastb.1) == Some(n as usize));
        let trunc = item.take(item.len() - lastb.1.len());
        assert(trunc =~= t + decs(front)) by {
            assert(decs(ixs) == decs(front) + spec_digits(n as nat));
        }
        lemma_strip_ix(t, b0, front);
        assert(strip(item, braces) == (
            strip(t, b0).0,
            seq![ItemKeyV::Index(n)] + (front.reverse() + strip(t, b0).1),
        )) by {
            assert(x == ItemKeyV::Index(n));
            assert(n as usize as int == n);
        }
        assert(ixs.reverse() =~= seq![x] + front.reverse());
        assert(seq![ItemKeyV::Index(n)] + (front.reverse() + strip(t, b0).1) =~= (seq![x]
            + front.reverse()) + strip(t, b0).1) by {
            assert(x == ItemKeyV::Index(n));
        }
    }
}

/// After scanning one whole chunk (a key and its trailing indexes),
/// completing the item emits exactly the chunk's segments.
proof fn lemma_complete_key_chunk(st: StV, k: Seq<char>, ixs: Seq<ItemKeyV>)
    requires
        st.item == k + decs(ixs),
        st.braces == keybraces(k) + ixbraces(k.len() as int, ixs),
        plain_key(k),
        all_index(ixs),
        rt_ok(ixs),
    ensures
        st_complete(st) == (StV {
            path: st.path + seq![ItemKeyV::Key(k)] + ixs,
            item: Seq::<char>::empty(),
            braces: Seq::<(int, Seq<char>)>::empty(),
            ..st
        }),
{
    assert(st.item.len() > 0);
    lemma_strip_ix(k, keybraces(k), ixs);
    let inner = strip(k, keybraces(k));
    assert(inner == (k, Seq::<ItemKeyV>::empty())) by {
        if k.contains('.') {
            assert(keybraces(k) == seq![(0int, k)]);
            assert(keybraces(k).last() == (0int, k));
            assert(keybraces(k).drop_last() =~= Seq::<(int, Seq<char>)>::empty());
            assert(0int + k.len() == k.len());
            assert(spec_parse_usize(k) is None) by {
                let i = choose|i: int| 0 <= i < k.len() && k[i] == '.';
                assert(k.contains('.'));
                assert(k[i] == '.');
                assert('.' as u32 == 46);
                assert(!crate::digits::is_digit('.'));
                assert('.' != '+');
                crate::digits::lemma_parse_none_of_nondigit(k, i);
            }
            assert(strip(k, keybraces(k)) == strip(k, Seq::<(int, Seq<char>)>::empty()));
        }
    }
    let stripped = strip(st.item, st.braces);
    assert(stripped == (k, ixs.reverse() + Seq::<ItemKeyV>::empty()));
    assert(ixs.reverse() + Seq::<ItemKeyV>::empty() =~= ixs.reverse());
    assert(k.len() > 0);
    let emitted = ixs.reverse().push(ItemKeyV::Key(k));
    assert(st_complete(st).path == st.path + emitted.reverse());
    assert(emitted.len() == ixs.len() + 1);
    assert forall|j: int| 0 <= j < emitted.reverse().len() implies #[trigger] emitted.reverse()[j]
        == (seq![ItemKeyV::Key(k)] + ixs)[j] by {
        assert(emitted.reverse()[j] == emitted[emitted.len() - 1 - j]);
        if j == 0 {
            assert(emitted[emitted.len() - 1] == ItemKeyV::Key(k));
        } else {
            assert(emitted[emitted.len() - 1 - j] == ixs.reverse()[ixs.len() - j]);
            assert(ixs.reverse()[ixs.len() - j] == ixs[j - 1]);
            assert((seq![ItemKeyV::Key(k)] + ixs)[j] == ixs[j - 1]);
        }
    }
    assert(emitted.reverse() =~= seq![ItemKeyV::Key(k)] + ixs);
    assert(st.path + emitted.reverse() == st.path + seq![ItemKeyV::Key(k)] + ixs) by {
        assert(st.path + (seq![ItemKeyV::Key(k)] + ixs) =~= st.path + seq![ItemKeyV::Key(k)]
            + ixs);
    }
}

/// Completing an item made of index texts alone emits the indexes.
proof fn lemma_complete_ix_chunk(st: StV, ixs: Seq<ItemKeyV>)
    requires
        st.item == decs(ixs),
        st.braces == ixbraces(0int, ixs),
        all_index(ixs),
        rt_ok(ixs),
        ixs.len() > 0,
    ensures
        st_complete(st) == (StV {
            path: st.path + ixs,
            item: Seq::<char>::empty(),
            braces: Seq::<(int, Seq<char>)>::empty(),
            ..st
        }),
{
    assert(st.item.len() > 0) by {
        lemma_decs_len(ixs);
    }
    let empty_t = Seq::<char>::empty();
    let empty_b = Seq::<(int, Seq<char>)>::empty();
    assert(empty_t + decs(ixs) =~= decs(ixs));
    assert(empty_b + ixbraces(0int, ixs) =~= ixbraces(0int, ixs));
    assert(empty_t.len() as int == 0int);
    lemma_strip_ix(empty_t, empty_b, ixs);
    let stripped = strip(st.item, st.braces);
    assert(stripped == (empty_t, ixs.reverse() + Seq::<ItemKeyV>::empty()));
    assert(ixs.reverse() + Seq::<ItemKeyV>::empty() =~= ixs.reverse());
    assert(stripped.0.len() == 0);
    assert(st_complete(st).path == st.path + ixs.reverse().reverse());
    assert(ixs.reverse().reverse() =~= ixs);
}

proof fn lemma_decs_len(ixs: Seq<ItemKeyV>)
    ensures
        decs(ixs).len() >= ixs.len(),
    decreases ixs.len(),
{
    if ixs.len() > 0 {
        lemma_decs_len(ixs.drop_first());
        crate::digits::lemma_spec_digits_all_digits(ixs[0]->Index_0 as nat);
    }
}

/// The chunk-by-chunk induction behind the round-trip law: from a state
/// between items, scanning the remaining serialized text and completing
/// appends exactly the remaining segments.
proof fn lemma_rt(st: StV, p: Seq<ItemKeyV>, first: bool)
    requires
        st.item.len() == 0,
        st.braces.len() == 0,
        st.bctx is None,
        rt_ok(p),
        !first ==> (p.len() == 0 || p[0] is Key),
    ensures
        st_complete(st_run(st, ser_from(p, first))).path == st.path + p,
    decreases p.len(),
{
    reveal_strlit(".");
    if p.len() == 0 {
        assert(st_run(st, ser_from(p, first)) == st);
        assert(st_complete(st) == st);
        assert(st.path + p =~= st.path);
    } else if p[0] is Key {
        let k = p[0]->Key_0;
        assert(rt_seg_ok(p[0]));
        let m = idx_prefix_len(p.drop_first());
        lemma_idx_prefix(p.drop_first());
        let ixs = p.subrange(1, 1 + m);
        let rest = p.skip(1 + m);
        assert(all_index(ixs) && rt_ok(ixs) && rt_ok(rest)) by {
            assert(forall|i: int|
                0 <= i < m ==> #[trigger] ixs[i] == p.drop_first()[i] && ixs[i] == p[i + 1]);
            assert(forall|i: int|
                0 <= i < rest.len() ==> #[trigger] rest[i] == p[1 + m + i]);
        }
        lemma_ser_split(p, 1 + m, first);
        let chunk = p.take(1 + m);
        assert(chunk[0] == p[0]);
        assert(chunk.drop_first() =~= ixs);
        assert(ser_from(chunk, first) == seg_text(p[0], first) + ser_from(ixs, false));
        lemma_run_app(st, ser_from(chunk, first), ser_from(rest, false));
        lemma_run_app(st, seg_text(p[0], first), ser_from(ixs, false));
        lemma_key_run(st, k, first);
        let st1 = st_run(st, seg_text(p[0], first));
        assert(p[0] == ItemKeyV::Key(k));
        assert(st1 == StV { item: k, braces: keybraces(k), ..st });
        lemma_idx_run(st1, ixs);
        let st2 = st_run(st1, ser_from(ixs, false));
        assert(st2 == StV {
            item: k + decs(ixs),
            braces: keybraces(k) + ixbraces(k.len() as int, ixs),
            bctx: None,
            path: st.path,
        }) by {
            assert(st1.item + decs(ixs) == k + decs(ixs));
            assert(st1.braces + ixbraces(st1.item.len() as int, ixs) == keybraces(k) + ixbraces(
                k.len() as int,
                ixs,
            ));
        }
        lemma_complete_key_chunk(st2, k, ixs);
        assert(st_complete(st2).path == st.path + seq![ItemKeyV::Key(k)] + ixs);
        assert(seq![ItemKeyV::Key(k)] + ixs =~= chunk);
        if rest.len() == 0 {
            assert(ser_from(rest, false) =~= Seq::<char>::empty());
            assert(st_run(st2, ser_from(rest, false)) == st2);
            assert(st.path + chunk =~= st.path + p) by {
                assert(chunk =~= p);
            }
        } else {
            assert(p.drop_first()[m] is Key);
            assert(rest[0] == p.drop_first()[m]);
            lemma_ser_undot(rest);
            lemma_run_app(st2, "."@, ser_from(rest, true));
            assert("."@.len() == 1 && "."@[0] == '.');
            let st3 = st_step(st2, '.');
            lemma_run_one(st2, '.', "."@);
            assert(st_run(st2, "."@) == st3);
            assert(st3 == st_complete(st2));
            assert(st3.item.len() == 0 && st3.braces.len() == 0 && st3.bctx is None);
            lemma_rt(st3, rest, true);
            assert(st_complete(st_run(st3, ser_from(rest, true))).path == st3.path + rest);
            assert(st3.path == st.path + chunk) by {
                assert(st.path + seq![ItemKeyV::Key(k)] + ixs == st.path + chunk) by {
                    assert(st.path + (seq![ItemKeyV::Key(k)] + ixs) =~= st.path + seq![
                        ItemKeyV::Key(k),
                    ] + ixs);
                    assert(st.path + (seq![ItemKeyV::Key(k)] + ixs) =~= st.path + chunk);
                }
            }
            assert((st.path + chunk) + rest =~= st.path + p) by {
                assert(chunk + rest =~= p);
            }
        }
    } else {
        assert(first);
        let m = idx_prefix_len(p);
        lemma_idx_prefix(p);
        assert(m >= 1);
        let ixs = p.take(m);
        let rest = p.skip(m);
        assert(all_index(ixs) && rt_ok(ixs) && rt_ok(rest)) by {
            assert(forall|i: int| 0 <= i < m ==> #[trigger] ixs[i] == p[i]);
            assert(forall|i: int|
                0 <= i < rest.len() ==> #[trigger] rest[i] == p[m + i]);
        }
        lemma_ser_split(p, m, true);
        assert(ser_from(ixs, true) == ser_from(ixs, false)) by {
            assert(ixs.len() > 0 && ixs[0] is Index);
            assert(seg_text(ixs[0], true) == seg_text(ixs[0], false));
        }
        lemma_run_app(st, ser_from(ixs, false), ser_from(rest, false));
        lemma_idx_run(st, ixs);
        let st2 = st_run(st, ser_from(ixs, false));
        assert(st2 == StV {
            item: decs(ixs),
            braces: ixbraces(0int, ixs),
            bctx: None,
            path: st.path,
        }) by {
            assert(st.item + decs(ixs) =~= decs(ixs));
            assert(st.braces + ixbraces(st.item.len() as int, ixs) =~= ixbraces(0int, ixs));
        }
        lemma_complete_ix_chunk(st2, ixs);
        if rest.len() == 0 {
            assert(ser_from(rest, false) =~= Seq::<char>::empty());
            assert(st_run(st2, ser_from(rest, false)) == st2);
            assert(st.path + ixs =~= st.path + p) by {
                assert(ixs =~= p);
            }
        } else {
            assert(p[m] is Key);
            assert(rest[0] == p[m]);
            lemma_ser_undot(rest);
            lemma_run_app(st2, "."@, ser_from(rest, true));
            assert("."@.len() == 1 && "."@[0] == '.');
            let st3 = st_step(st2, '.');
            lemma_run_one(st2, '.', "."@);
            assert(st_run(st2, "."@) == st3);
            assert(st3 == st_complete(st2));
            assert(st3.item.len() == 0 && st3.braces.len() == 0 && st3.bctx is None);
            lemma_rt(st3, rest, true);
            assert(st3.path == st.path + ixs);
            assert((st.path + ixs) + rest =~= st.path + p) by {
                assert(ixs + rest =~= p);
            }
        }
    }
}

/// Round-trip: parsing the serialized text of a path gives the path back,
/// for any path whose key texts are non-empty and hold no square brackets
/// and whose indexes fit a machine word.
pub proof fn lemma_parse_serialize_roundtrip(p: Seq<ItemKeyV>)
    requires
        rt_ok(p),
    ensures
        spec_parse(spec_serialize(p)) == p,
{
    lemma_rt(st_init(), p, true);
    assert(st_init().path + p =~= p);
}

/// Quoting: a key whose text contains a dot serializes bracketed, and the
/// bracketed text parses back to the same single key segment.
pub proof fn lemma_quoted_key_roundtrip(k: Seq<char>)
    requires
        plain_key(k),
        k.contains('.'),
    ensures
        spec_serialize(seq![ItemKeyV::Key(k)]) == "["@ + k + "]"@,
        spec_parse("["@ + k + "]"@) == seq![ItemKeyV::Key(k)],
{
    let p = seq![ItemKeyV::Key(k)];
    assert(p[0] == ItemKeyV::Key(k));
    assert(p.drop_first() =~= Seq::<ItemKeyV>::empty());
    assert(spec_serialize(p) == seg_text(p[0], true) + ser_from(Seq::<ItemKeyV>::empty(), false));
    assert(seg_text(p[0], true) =~= "["@ + k + "]"@) by {
        assert(Seq::<char>::empty() + ("["@ + k + "]"@) =~= "["@ + k + "]"@);
    }
    assert(spec_serialize(p) =~= "["@ + k + "]"@);
    assert(rt_ok(p));
    lemma_parse_serialize_roundtrip(p);
}

impl From<&[ItemKey]> for KeyPath {
    /// A path made of copies of the given segments.
    fn from(items: &[ItemKey]) -> (r: KeyPath)
        ensures
            r@ == items_view(items@),
    {
        let mut v: Vec<ItemKey> = Vec::new();
        let mut i: usize = 0;
        while i < items.len()
            invariant
                i <= items@.len(),
                v@.len() == i,
                forall|j: int| 0 <= j < i ==> v@[j]@ == items@[j]@,
            decreases items@.len() - i,
        {
            let e: &ItemKey = &items[i];
            v.push(e.duplicate());
            i = i + 1;
        }
        let r = KeyPath(v);
        proof {
            assert(r@ =~= items_view(items@));
        }
        r
    }
}

impl vstd::std_specs::convert::FromSpecImpl<&[ItemKey]> for KeyPath {
    open spec fn obeys_from_spec() -> bool {
        false
    }

    open spec fn from_spec(items: &[ItemKey]) -> KeyPath {
        arbitrary()
    }
}

impl From<&str> for KeyPath {
    /// The path a text denotes.
    fn from(path: &str) -> (r: KeyPath)
        ensures
            r@ == spec_parse(path@),
    {
        KeyPath::parse(path)
    }
}

impl vstd::std_specs::convert::FromSpecImpl<&str> for KeyPath {
    open spec fn obeys_from_spec() -> bool {
        false
    }

    open spec fn from_spec(path: &str) -> KeyPath {
        arbitrary()
    }
}

impl From<&[&str]> for KeyPath {
    /// A path of key segments with the given texts.
    fn from(path: &[&str]) -> (r: KeyPath)
        ensures
            r@.len() == path@.len(),
            forall|i: int| 0 <= i < path@.len() ==> r@[i] == ItemKeyV::Key(path@[i]@),
    {
        let mut v: Vec<ItemKey> = Vec::new();
        let mut i: usize = 0;
        while i < path.len()
            invariant
                i <= path@.len(),
                v@.len() == i,
                forall|j: int| 0 <= j < i ==> v@[j]@ == ItemKeyV::Key(path@[j]@),
            decreases path@.len() - i,
        {
            let name: &str = path[i];
            v.push(ItemKey::Key(name.to_owned()));
            i = i + 1;
        }
        KeyPath(v)
    }
}

impl vstd::std_specs::convert::FromSpecImpl<&[&str]> for KeyPath {
    open spec fn obeys_from_spec() -> bool {
        false
    }

    open spec fn from_spec(path: &[&str]) -> KeyPath {
        arbitrary()
    }
}

/// An owned copy of a segment vector.
fn duplicate_items(v: &Vec<ItemKey>) -> (r: Vec<ItemKey>)
    ensures
        items_view(r@) == items_view(v@),
        r@.len() == v@.len(),
        forall|i: int| 0 <= i < v@.len() ==> r@[i]@ == v@[i]@,
{
    let mut r: Vec<ItemKey> = Vec::new();
    let mut i: usize = 0;
    while i < v.len()
        invariant
            i <= v@.len(),
            r@.len() == i,
            forall|j: int| 0 <= j < i ==> r@[j]@ == v@[j]@,
        decreases v@.len() - i,
    {
        r.push(v[i].duplicate());
        i = i + 1;
    }
    proof {
        assert(items_view(r@) =~= items_view(v@));
    }
    r
}

} // verus!
