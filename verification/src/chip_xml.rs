//! The chip database in its XML form (`chiplib.xml`): protocol elements
//! hold vendor elements, which hold one element per chip whose attributes
//! are the chip's `key=value` record. Loading builds the library directly.
use vstd::prelude::*;
use crate::ch34x_sidecar::{lemma_next_sep, next_sep, chars_eq};
use crate::chipdb::{
    id_field, id_field_of, id_key, id_value, lossy_string, pairs_view, parse_attr_string, protocol_name_to_id,
    records_bytes, spec_deobfuscate, deobfuscate, spec_protocol_id, text_or_empty, utf8_lossy, xml_attrs_from,
    AttrPairs, Chiplib, IndexEntry,
};
use crate::order::push_utf8;
use crate::text::{chars_of, string_from_chars};
use crate::unicode::{is_whitespace, trim, trim_chars, unicode_ws};
use vstd::string::StringSliceAdditionalSpecFns;

verus! {

broadcast use vstd::seq_lib::to_multiset_insert;

/// The version a library loaded from XML carries.
pub const XML_VERSION: u32 = 20250628;

/// First index at or after `i` where `-->` starts, or the end.
pub open spec fn find_comment_end(x: Seq<char>, i: int) -> int
    decreases x.len() - i,
{
    if i < 0 || i + 3 > x.len() {
        x.len() as int
    } else if x[i] == '-' && x[i + 1] == '-' && x[i + 2] == '>' {
        i
    } else {
        find_comment_end(x, i + 1)
    }
}

pub proof fn lemma_comment_end(x: Seq<char>, i: int)
    requires
        0 <= i <= x.len(),
    ensures
        i <= find_comment_end(x, i) <= x.len(),
        find_comment_end(x, i) < x.len() ==> find_comment_end(x, i) + 3 <= x.len(),
    decreases x.len() - i,
{
    if i + 3 <= x.len() && !(x[i] == '-' && x[i + 1] == '-' && x[i + 2] == '>') {
        lemma_comment_end(x, i + 1);
    }
}

/// First index at or after `i` of a whitespace character, or the end.
pub open spec fn first_ws(s: Seq<char>, i: int) -> int
    decreases s.len() - i,
{
    if i < 0 || i >= s.len() {
        s.len() as int
    } else if unicode_ws(s[i]) {
        i
    } else {
        first_ws(s, i + 1)
    }
}

pub proof fn lemma_first_ws(s: Seq<char>, i: int)
    requires
        0 <= i <= s.len(),
    ensures
        i <= first_ws(s, i) <= s.len(),
    decreases s.len() - i,
{
    if i < s.len() && !unicode_ws(s[i]) {
        lemma_first_ws(s, i + 1);
    }
}

/// A tag: closing or not, its name, and its attribute text.
pub type TagView = (bool, Seq<char>, Seq<char>);

/// The parts of a tag's content (between `<` and `>`): a leading `/` marks
/// a closing tag, a trailing `/` (self-closing) is dropped, the name runs
/// to the first whitespace and the rest, trimmed, is the attribute text.
pub open spec fn tag_parts(content: Seq<char>) -> TagView {
    let closing = content.len() > 0 && content[0] == '/';
    let c1 = if closing { content.drop_first() } else { content };
    let c2 = trim(c1);
    let c3 = if c2.len() > 0 && c2.last() == '/' { trim(c2.drop_last()) } else { c2 };
    let w = first_ws(c3, 0);
    if w < c3.len() { (closing, c3.take(w), trim(c3.skip(w))) } else { (closing, c3, Seq::empty()) }
}

/// Whether a tag's content opens a comment.
pub open spec fn starts_comment(content: Seq<char>) -> bool {
    content.len() >= 3 && content[0] == '!' && content[1] == '-' && content[2] == '-'
}

/// The tags of `x` from position `pos` on, comments skipped; scanning
/// stops at a `<` without a closing `>`.
pub open spec fn xml_tags(x: Seq<char>, pos: int) -> Seq<TagView>
    decreases x.len() - pos,
{
    if pos < 0 || pos >= x.len() {
        Seq::empty()
    } else {
        proof {
            lemma_next_sep(x, '<', pos);
        }
        let lt = next_sep(x, '<', pos);
        if lt >= x.len() {
            Seq::empty()
        } else {
            proof {
                lemma_next_sep(x, '>', lt + 1);
                lemma_comment_end(x, lt);
            }
            let gt = next_sep(x, '>', lt + 1);
            if gt >= x.len() {
                Seq::empty()
            } else {
                let content = x.subrange(lt + 1, gt);
                if starts_comment(content) && find_comment_end(x, lt) < x.len() {
                    xml_tags(x, find_comment_end(x, lt) + 3)
                } else {
                    seq![tag_parts(content)] + xml_tags(x, gt + 1)
                }
            }
        }
    }
}

/// An open element on the nesting stack: a protocol (`true`) or a vendor.
pub type StackItem = (bool, Seq<char>);

/// The name of the innermost open protocol (`true`) or vendor element.
pub open spec fn innermost(stack: Seq<StackItem>, protocol: bool) -> Option<Seq<char>>
    decreases stack.len(),
{
    if stack.len() == 0 {
        None
    } else if stack.last().0 == protocol {
        Some(stack.last().1)
    } else {
        innermost(stack.drop_last(), protocol)
    }
}

/// The value of the last `id` attribute, or nothing.
pub open spec fn last_id(attrs: AttrPairs) -> Seq<char>
    decreases attrs.len(),
{
    if attrs.len() == 0 {
        Seq::empty()
    } else if attrs.last().0 == "id"@ {
        attrs.last().1
    } else {
        last_id(attrs.drop_last())
    }
}

/// An index entry as plain values: id field, data offset, length, protocol.
pub type EntryView = (Seq<u8>, u32, u16, u16);

/// The plain values of an index entry.
pub open spec fn entry_view(e: IndexEntry) -> EntryView {
    (e.id@, e.data_offset, e.data_len, e.protocol)
}

/// The record of a chip element: vendor, model (the element name),
/// protocol, then the element's attributes.
pub open spec fn chip_pairs(vendor: Seq<char>, model: Seq<char>, protocol: Seq<char>, attrs: AttrPairs) -> AttrPairs {
    seq![("vendor"@, vendor), ("model"@, model), ("protocol"@, protocol)] + attrs
}

/// The state after the first `n` tags: the stack of open protocol and
/// vendor elements, the data section, and the index entries in document
/// order.
pub open spec fn fold_tags(tags: Seq<TagView>, n: int) -> (Seq<StackItem>, Seq<u8>, Seq<EntryView>)
    decreases n,
{
    if n <= 0 {
        (Seq::empty(), Seq::empty(), Seq::empty())
    } else {
        let (st, data, es) = fold_tags(tags, n - 1);
        let (closing, name, attr) = tags[n - 1];
        if closing {
            (if st.len() > 0 && st.last().1 == name { st.drop_last() } else { st }, data, es)
        } else if spec_protocol_id(name) != 0xFF {
            (st.push((true, name)), data, es)
        } else {
            match innermost(st, true) {
                None => (st, data, es),
                Some(proto) => if attr.len() == 0 {
                    (st.push((false, name)), data, es)
                } else {
                    let attrs = xml_attrs_from(vstd::utf8::encode_utf8(attr), 0);
                    let bytes = records_bytes(chip_pairs(text_or_empty(innermost(st, false)), name, proto, attrs));
                    let e = (id_field(vstd::utf8::encode_utf8(last_id(attrs))), (data.len() % 0x1_0000_0000) as u32,
                        (bytes.len() % 0x10000) as u16, spec_protocol_id(proto));
                    (st, data + bytes, es.push(e))
                },
            }
        }
    }
}

/// The plain XML text of a file: a file starting with `<` is plain, any
/// other is obfuscated.
pub open spec fn xml_plain(raw: Seq<u8>) -> Seq<u8> {
    if raw.len() > 0 && raw[0] == 0x3C { raw } else { spec_deobfuscate(raw) }
}

/// Entries sorted by id.
pub open spec fn sorted_by_id(es: Seq<IndexEntry>) -> bool {
    forall|i: int, j: int| 0 <= i < j < es.len() ==> id_key(es[i].id@) <= id_key(es[j].id@)
}

/// The plain values of a scanned tag.
pub open spec fn tag_view(t: (bool, Vec<char>, Vec<char>)) -> TagView {
    (t.0, t.1@, t.2@)
}

// ───────────────────────────── executable ──────────────────────────────

fn find_char(x: &[char], c: char, i: usize) -> (r: usize)
    requires
        i <= x@.len(),
    ensures
        r as int == next_sep(x@, c, i as int),
        i <= r <= x@.len(),
{
    proof {
        lemma_next_sep(x@, c, i as int);
    }
    let mut j = i;
    while j < x.len() && x[j] != c
        invariant
            i <= j <= x@.len(),
            next_sep(x@, c, i as int) == next_sep(x@, c, j as int),
        decreases x@.len() - j,
    {
        j = j + 1;
    }
    j
}

fn comment_end(x: &[char], i: usize) -> (r: usize)
    requires
        i <= x@.len(),
    ensures
        r as int == find_comment_end(x@, i as int),
{
    proof {
        lemma_comment_end(x@, i as int);
    }
    let n = x.len();
    let mut j = i;
    while j < n && n - j >= 3 && !(x[j] == '-' && x[j + 1] == '-' && x[j + 2] == '>')
        invariant
            i <= j <= n,
            n == x@.len(),
            find_comment_end(x@, i as int) == find_comment_end(x@, j as int),
        decreases n - j,
    {
        j = j + 1;
    }
    if n - j < 3 {
        n
    } else {
        j
    }
}

fn subrange_chars(x: &[char], lo: usize, hi: usize) -> (r: Vec<char>)
    requires
        lo <= hi <= x@.len(),
    ensures
        r@ == x@.subrange(lo as int, hi as int),
{
    let mut out: Vec<char> = Vec::new();
    let mut i = lo;
    while i < hi
        invariant
            lo <= i <= hi <= x@.len(),
            out@ == x@.subrange(lo as int, i as int),
        decreases hi - i,
    {
        out.push(x[i]);
        i = i + 1;
        assert(out@ =~= x@.subrange(lo as int, i as int));
    }
    out
}

/// Split a tag's content into its parts (see [`tag_parts`]).
fn split_tag(content: &Vec<char>) -> (r: (bool, Vec<char>, Vec<char>))
    ensures
        (r.0, r.1@, r.2@) == tag_parts(content@),
{
    let closing = content.len() > 0 && content[0] == '/';
    let c1 = if closing { subrange_chars(content.as_slice(), 1, content.len()) } else { subrange_chars(content.as_slice(), 0, content.len()) };
    assert(c1@ =~= (if closing { content@.drop_first() } else { content@ }));
    let c2 = trim_chars(c1.as_slice());
    let c3 = if c2.len() > 0 && c2[c2.len() - 1] == '/' {
        let t = subrange_chars(c2.as_slice(), 0, c2.len() - 1);
        assert(t@ =~= c2@.drop_last());
        trim_chars(t.as_slice())
    } else {
        c2
    };
    proof {
        lemma_first_ws(c3@, 0);
    }
    let mut w: usize = 0;
    while w < c3.len() && !is_whitespace(c3[w])
        invariant
            w <= c3@.len(),
            first_ws(c3@, 0) == first_ws(c3@, w as int),
        decreases c3@.len() - w,
    {
        w = w + 1;
    }
    if w < c3.len() {
        let name = subrange_chars(c3.as_slice(), 0, w);
        let rest = subrange_chars(c3.as_slice(), w, c3.len());
        assert(name@ =~= c3@.take(w as int));
        assert(rest@ =~= c3@.skip(w as int));
        (closing, name, trim_chars(rest.as_slice()))
    } else {
        (closing, c3, Vec::new())
    }
}

/// The tags of an XML text (see [`xml_tags`]).
pub fn scan_tags(x: &[char]) -> (r: Vec<(bool, Vec<char>, Vec<char>)>)
    ensures
        r@.len() == xml_tags(x@, 0).len(),
        forall|k: int| 0 <= k < r@.len() ==> #[trigger] tag_view(r@[k]) == xml_tags(x@, 0)[k],
{
    let n = x.len();
    let mut out: Vec<(bool, Vec<char>, Vec<char>)> = Vec::new();
    let ghost mut acc: Seq<TagView> = Seq::empty();
    let mut pos: usize = 0;
    while pos < n
        invariant
            pos <= n,
            n == x@.len(),
            out@.len() == acc.len(),
            forall|k: int| 0 <= k < out@.len() ==> #[trigger] tag_view(out@[k]) == acc[k],
            xml_tags(x@, 0) == acc + xml_tags(x@, pos as int),
        decreases n - pos,
    {
        let lt = find_char(x, '<', pos);
        if lt >= n {
            assert(xml_tags(x@, pos as int) =~= Seq::<TagView>::empty());
            assert(acc + xml_tags(x@, pos as int) =~= acc);
            return out;
        }
        let gt = find_char(x, '>', lt + 1);
        if gt >= n {
            assert(xml_tags(x@, pos as int) =~= Seq::<TagView>::empty());
            assert(acc + xml_tags(x@, pos as int) =~= acc);
            return out;
        }
        let content = subrange_chars(x, lt + 1, gt);
        let is_comment = content.len() >= 3 && content[0] == '!' && content[1] == '-' && content[2] == '-';
        let ce = comment_end(x, lt);
        proof {
            lemma_comment_end(x@, lt as int);
        }
        if is_comment && ce < n {
            assert(xml_tags(x@, pos as int) == xml_tags(x@, ce + 3));
            pos = ce + 3;
        } else {
            let (closing, name, attrs) = split_tag(&content);
            let ghost t = tag_parts(content@);
            out.push((closing, name, attrs));
            proof {
                assert(xml_tags(x@, pos as int) == seq![t] + xml_tags(x@, gt + 1));
                acc = acc.push(t);
                assert(acc.drop_last() + seq![t] =~= acc);
            }
            pos = gt + 1;
        }
    }
    assert(xml_tags(x@, pos as int) =~= Seq::<TagView>::empty());
    assert(acc + xml_tags(x@, pos as int) =~= acc);
    out
}

/// The plain values of a stack.
pub open spec fn stack_view(st: Seq<(bool, Vec<char>)>) -> Seq<StackItem> {
    Seq::new(st.len(), |i: int| (st[i].0, st[i].1@))
}

/// The plain values of an index.
pub open spec fn entries_plain(es: Seq<IndexEntry>) -> Seq<EntryView> {
    Seq::new(es.len(), |i: int| entry_view(es[i]))
}

fn innermost_exec(stack: &Vec<(bool, Vec<char>)>, protocol: bool) -> (r: Option<Vec<char>>)
    ensures
        match r {
            Some(v) => innermost(stack_view(stack@), protocol) == Some(v@),
            None => innermost(stack_view(stack@), protocol) is None,
        },
{
    let mut i = stack.len();
    assert(stack_view(stack@).take(i as int) =~= stack_view(stack@));
    while i > 0
        invariant
            i <= stack@.len(),
            innermost(stack_view(stack@), protocol) == innermost(stack_view(stack@).take(i as int), protocol),
        decreases i,
    {
        assert(stack_view(stack@).take(i as int).drop_last() =~= stack_view(stack@).take(i - 1));
        if stack[i - 1].0 == protocol {
            return Some(stack[i - 1].1.clone());
        }
        i = i - 1;
    }
    None
}

fn last_id_exec(attrs: &Vec<(String, String)>) -> (r: String)
    ensures
        r@ == last_id(pairs_view(attrs@)),
{
    let mut i = attrs.len();
    assert(pairs_view(attrs@).take(i as int) =~= pairs_view(attrs@));
    while i > 0
        invariant
            i <= attrs@.len(),
            last_id(pairs_view(attrs@)) == last_id(pairs_view(attrs@).take(i as int)),
        decreases i,
    {
        assert(pairs_view(attrs@).take(i as int).drop_last() =~= pairs_view(attrs@).take(i - 1));
        if crate::text::str_eq(attrs[i - 1].0.as_str(), "id") {
            return attrs[i - 1].1.clone();
        }
        i = i - 1;
    }
    String::new()
}

/// Apply one tag to the state (see [`fold_tags`]).
#[verifier::rlimit(40)]
fn apply_tag(
    stack: &mut Vec<(bool, Vec<char>)>,
    data: &mut Vec<u8>,
    entries: &mut Vec<IndexEntry>,
    tag: &(bool, Vec<char>, Vec<char>),
    Ghost(tags): Ghost<Seq<TagView>>,
    Ghost(n): Ghost<int>,
)
    requires
        0 <= n < tags.len(),
        tags[n] == tag_view(*tag),
        (stack_view(old(stack)@), old(data)@, entries_plain(old(entries)@)) == fold_tags(tags, n),
        forall|j: int| 0 <= j < old(entries)@.len() ==> #[trigger] old(entries)@[j].data_offset + old(entries)@[j].data_len <= old(data)@.len(),
    ensures
        (stack_view(final(stack)@), final(data)@, entries_plain(final(entries)@)) == fold_tags(tags, n + 1),
        forall|j: int| 0 <= j < final(entries)@.len() ==> #[trigger] final(entries)@[j].data_offset + final(entries)@[j].data_len <= final(data)@.len(),
{
    let ghost st0 = stack_view(stack@);
    let (closing, name, attr) = tag;
    if *closing {
        if stack.len() > 0 && chars_eq(stack[stack.len() - 1].1.as_slice(), name.as_slice()) {
            stack.pop();
            assert(stack_view(stack@) =~= st0.drop_last());
        }
        return;
    }
    let name_s = string_from_chars(name.as_slice());
    let pid = protocol_name_to_id(name_s.as_str());
    if pid != 0xFF {
        stack.push((true, name.clone()));
        assert(stack_view(stack@) =~= st0.push((true, name@)));
        return;
    }
    match innermost_exec(stack, true) {
        None => {},
        Some(proto) => {
            if attr.len() == 0 {
                stack.push((false, name.clone()));
                assert(stack_view(stack@) =~= st0.push((false, name@)));
            } else {
                let vendor = match innermost_exec(stack, false) {
                    Some(v) => v,
                    None => Vec::new(),
                };
                let attr_s = string_from_chars(attr.as_slice());
                let attrs = parse_attr_string(attr_s.as_str());
                let proto_s = string_from_chars(proto.as_slice());
                let mut pairs: Vec<(String, String)> = Vec::new();
                pairs.push((String::from_str("vendor"), string_from_chars(vendor.as_slice())));
                pairs.push((String::from_str("model"), name_s));
                pairs.push((String::from_str("protocol"), proto_s.clone()));
                let ghost head = pairs_view(pairs@);
                let mut i: usize = 0;
                while i < attrs.len()
                    invariant
                        i <= attrs@.len(),
                        pairs_view(pairs@) == head + pairs_view(attrs@).take(i as int),
                    decreases attrs@.len() - i,
                {
                    let ghost before = pairs_view(pairs@);
                    pairs.push((attrs[i].0.clone(), attrs[i].1.clone()));
                    assert(pairs_view(pairs@) =~= before.push(pairs_view(attrs@)[i as int]));
                    assert(pairs_view(attrs@).take(i + 1) =~= pairs_view(attrs@).take(i as int).push(pairs_view(attrs@)[i as int]));
                    i = i + 1;
                }
                assert(pairs_view(attrs@).take(attrs@.len() as int) =~= pairs_view(attrs@));
                let ghost vend = text_or_empty(innermost(st0, false));
                assert(vendor@ == vend);
                assert(pairs_view(pairs@) =~= chip_pairs(vend, name@, proto@, pairs_view(attrs@)));
                let mut bytes: Vec<u8> = Vec::new();
                crate::chipdb::push_records(&mut bytes, &pairs);
                assert(bytes@ =~= records_bytes(pairs_view(pairs@)));
                let id = last_id_exec(&attrs);
                let key = id_field_of(id.as_str());
                let dl = data.len();
                let e = IndexEntry {
                    id: key,
                    data_offset: (dl as u64 % 0x1_0000_0000) as u32,
                    data_len: (bytes.len() as u64 % 0x10000) as u16,
                    protocol: protocol_name_to_id(proto_s.as_str()),
                };
                assert(e.data_offset as int <= dl as int);
                assert(e.data_len as int <= bytes@.len());
                let ghost es0 = entries_plain(entries@);
                entries.push(e);
                assert(entries_plain(entries@) =~= es0.push(entry_view(e)));
                crate::protocols::append(data, &bytes);
            }
        },
    }
}

/// The entries whose id has the key `key`, in their order.
pub open spec fn with_key(es: Seq<EntryView>, key: int) -> Seq<EntryView> {
    es.filter(|e: EntryView| id_key(e.0) == key)
}

proof fn lemma_with_key_push(t: Seq<EntryView>, x: EntryView, key: int)
    ensures
        with_key(t.push(x), key) == if id_key(x.0) == key { with_key(t, key).push(x) } else { with_key(t, key) },
{
    reveal(Seq::filter);
    assert(t.push(x).drop_last() =~= t);
}

proof fn lemma_with_key_none_above(t: Seq<EntryView>, key: int)
    requires
        forall|j: int| 0 <= j < t.len() ==> id_key(#[trigger] t[j].0) > key,
    ensures
        with_key(t, key) == Seq::<EntryView>::empty(),
{
    let f = with_key(t, key);
    if f.len() > 0 {
        let pred = |e: EntryView| id_key(e.0) == key;
        t.lemma_filter_pred(pred, 0);
        t.lemma_filter_contains_rev(pred, f[0]);
        let j = choose|j: int| 0 <= j < t.len() && t[j] == f[0];
        assert(id_key(t[j].0) > key);
    }
    assert(f =~= Seq::<EntryView>::empty());
}

/// Inserting `x` after every entry of key at most its own, and before every
/// larger one, adds it at the end of its key's run and leaves other keys alone.
proof fn lemma_with_key_insert(s: Seq<EntryView>, p: int, x: EntryView, key: int)
    requires
        0 <= p <= s.len(),
        forall|j: int| p <= j < s.len() ==> id_key(#[trigger] s[j].0) > id_key(x.0),
    ensures
        with_key(s.insert(p, x), key) == if id_key(x.0) == key { with_key(s, key).push(x) } else { with_key(s, key) },
{
    let pred = |e: EntryView| id_key(e.0) == key;
    let a = s.take(p);
    let b = s.skip(p);
    assert(s =~= a + b);
    assert(s.insert(p, x) =~= a.push(x) + b);
    Seq::filter_distributes_over_add(a, b, pred);
    Seq::filter_distributes_over_add(a.push(x), b, pred);
    lemma_with_key_push(a, x, key);
    if id_key(x.0) == key {
        assert forall|j: int| 0 <= j < b.len() implies id_key(#[trigger] b[j].0) > key by {
            assert(b[j] == s[p + j]);
        }
        lemma_with_key_none_above(b, key);
        assert(with_key(s, key) =~= with_key(a, key));
        assert(with_key(s.insert(p, x), key) =~= with_key(a, key).push(x));
    }
}

/// Sort an index by id, keeping equal ids in their order.
fn sort_entries(v: Vec<IndexEntry>) -> (r: Vec<IndexEntry>)
    ensures
        sorted_by_id(r@),
        entries_plain(r@).to_multiset() == entries_plain(v@).to_multiset(),
        forall|i: int| 0 <= i < r@.len() ==> v@.contains(#[trigger] r@[i]),
        forall|key: int| #[trigger] with_key(entries_plain(r@), key) == with_key(entries_plain(v@), key),
{
    let mut out: Vec<IndexEntry> = Vec::new();
    let mut k: usize = 0;
    assert(entries_plain(out@) =~= entries_plain(v@).take(0));
    while k < v.len()
        invariant
            k <= v@.len(),
            sorted_by_id(out@),
            entries_plain(out@).to_multiset() == entries_plain(v@).take(k as int).to_multiset(),
            forall|i: int| 0 <= i < out@.len() ==> v@.contains(#[trigger] out@[i]),
            forall|key: int| #[trigger] with_key(entries_plain(out@), key) == with_key(entries_plain(v@).take(k as int), key),
        decreases v@.len() - k,
    {
        let x = v[k];
        let xk = id_value(&x.id);
        let mut p: usize = 0;
        while p < out.len() && id_value(&out[p].id) <= xk
            invariant
                p <= out@.len(),
                xk as int == id_key(x.id@),
                forall|j: int| 0 <= j < p ==> id_key(out@[j].id@) <= id_key(x.id@),
            decreases out@.len() - p,
        {
            p = p + 1;
        }
        let ghost before = out@;
        out.insert(p, x);
        assert(out@ == before.insert(p as int, x));
        assert(entries_plain(out@) =~= entries_plain(before).insert(p as int, entry_view(x)));
        assert(entries_plain(v@).take(k + 1) =~= entries_plain(v@).take(k as int).insert(k as int, entry_view(x)));
        proof {
            let eb = entries_plain(before);
            assert forall|j: int| p <= j < eb.len() implies id_key(#[trigger] eb[j].0) > id_key(entry_view(x).0) by {
                assert(id_key(before[p as int].id@) > id_key(x.id@));
                assert(id_key(before[p as int].id@) <= id_key(before[j].id@));
            }
            assert forall|key: int| #[trigger] with_key(entries_plain(out@), key)
                == with_key(entries_plain(v@).take(k + 1), key) by {
                lemma_with_key_insert(eb, p as int, entry_view(x), key);
                lemma_with_key_push(entries_plain(v@).take(k as int), entry_view(x), key);
                assert(entries_plain(v@).take(k + 1) =~= entries_plain(v@).take(k as int).push(entry_view(x)));
            }
        }
        assert forall|i: int| 0 <= i < out@.len() implies v@.contains(#[trigger] out@[i]) by {
            if i < p {
                assert(out@[i] == before[i]);
            } else if i == p {
                assert(out@[i] == v@[k as int]);
            } else {
                assert(out@[i] == before[i - 1]);
            }
        }
        k = k + 1;
    }
    assert(entries_plain(v@).take(v@.len() as int) =~= entries_plain(v@));
    out
}

/// What loading an XML text gives: the state after all of its tags.
pub open spec fn xml_fold(raw: Seq<u8>) -> (Seq<StackItem>, Seq<u8>, Seq<EntryView>) {
    let tags = xml_tags(utf8_lossy(xml_plain(raw)), 0);
    fold_tags(tags, tags.len() as int)
}

impl Chiplib {
    /// Load a library from the bytes of `chiplib.xml` (obfuscated, or plain
    /// when it starts with `<`). Refused when the decoded text does not
    /// start with `<`. Each chip element becomes an index entry (its id
    /// attribute, cut to 16 bytes) and a data record (vendor, model,
    /// protocol, then the element's attributes); the index is sorted by id,
    /// chips with equal ids keeping document order.
    pub fn load_xml(raw: &[u8]) -> (r: Result<Chiplib, String>)
        ensures
            r is Ok <==> (xml_plain(raw@).len() > 0 && xml_plain(raw@)[0] == 0x3C),
            r matches Ok(lib) ==> {
                &&& lib.wf()
                &&& lib.version_view() == XML_VERSION
                &&& lib.data_view() == xml_fold(raw@).1
                &&& sorted_by_id(lib.entries_view())
                &&& entries_plain(lib.entries_view()).to_multiset() == xml_fold(raw@).2.to_multiset()
                &&& forall|key: int| #[trigger] with_key(entries_plain(lib.entries_view()), key) == with_key(xml_fold(raw@).2, key)
            },
    {
        let plain = if raw.len() > 0 && raw[0] == 0x3C {
            crate::firmware::copy_range(raw, 0, raw.len())
        } else {
            let decoded = deobfuscate(raw);
            if !(decoded.len() > 0 && decoded[0] == 0x3C) {
                return Err("XML 混淆数据无效".to_string());
            }
            decoded
        };
        assert(plain@ =~= xml_plain(raw@));
        let text = lossy_string(plain.as_slice());
        let chars = chars_of(text.as_str());
        let tags = scan_tags(chars.as_slice());
        let ghost tv = xml_tags(chars@, 0);
        let mut stack: Vec<(bool, Vec<char>)> = Vec::new();
        let mut data: Vec<u8> = Vec::new();
        let mut entries: Vec<IndexEntry> = Vec::new();
        let mut k: usize = 0;
        assert((stack_view(stack@), data@, entries_plain(entries@)) =~= fold_tags(tv, 0));
        while k < tags.len()
            invariant
                k <= tags@.len(),
                tags@.len() == tv.len(),
                forall|j: int| 0 <= j < tags@.len() ==> #[trigger] tag_view(tags@[j]) == tv[j],
                (stack_view(stack@), data@, entries_plain(entries@)) == fold_tags(tv, k as int),
                forall|j: int| 0 <= j < entries@.len() ==> #[trigger] entries@[j].data_offset + entries@[j].data_len <= data@.len(),
            decreases tags@.len() - k,
        {
            apply_tag(&mut stack, &mut data, &mut entries, &tags[k], Ghost(tv), Ghost(k as int));
            k = k + 1;
        }
        let ghost unsorted = entries@;
        let sorted = sort_entries(entries);
        let lib = Chiplib::from_parts(sorted, data, XML_VERSION);
        proof {
            assert forall|i: int| 0 <= i < lib.entries_view().len() implies
                #[trigger] lib.entries_view()[i].data_offset + lib.entries_view()[i].data_len <= lib.data_view().len() by {
                assert(unsorted.contains(lib.entries_view()[i]));
                let j = choose|j: int| 0 <= j < unsorted.len() && unsorted[j] == lib.entries_view()[i];
                assert(unsorted[j].data_offset + unsorted[j].data_len <= data@.len());
            }
        }
        Ok(lib)
    }
}

} // verus!
