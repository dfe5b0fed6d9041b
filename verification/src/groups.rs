//! Groups of images: files whose names start alike belong together.

use vstd::prelude::*;
use vstd::string::*;

verus! {

/// The character is a decimal digit.
pub open spec fn is_digit(c: char) -> bool {
    '0' <= c <= '9'
}

/// The first place at or after `i` where the text goes on with `_p`, or its
/// length where it does so nowhere.
pub open spec fn page_mark(s: Seq<char>, i: int) -> int
    decreases s.len() - i,
{
    if i + 1 >= s.len() {
        s.len() as int
    } else if s[i] == '_' && s[i + 1] == 'p' {
        i
    } else {
        page_mark(s, i + 1)
    }
}

/// The first place at or after `i` where the text does not go on with a digit.
pub open spec fn digits_end(s: Seq<char>, i: int) -> int
    decreases s.len() - i,
{
    if i >= s.len() {
        s.len() as int
    } else if is_digit(s[i]) {
        digits_end(s, i + 1)
    } else {
        i
    }
}

/// Where the prefix ends: behind the page number, or at the end of the stem.
pub open spec fn prefix_end(s: Seq<char>) -> int {
    let p = page_mark(s, 0);
    if p == s.len() {
        s.len() as int
    } else {
        digits_end(s, p + 2)
    }
}

/// The prefix of a stem: all up to the page number, if it has one.
pub open spec fn stem_prefix(s: Seq<char>) -> Seq<char> {
    s.take(prefix_end(s))
}

/// The method of a stem: what follows the page number and an underscore.
pub open spec fn stem_method(s: Seq<char>) -> Seq<char> {
    let e = prefix_end(s);
    if page_mark(s, 0) < s.len() && e < s.len() && s[e] == '_' {
        s.subrange(e + 1, s.len() as int)
    } else {
        "original"@
    }
}

proof fn page_mark_bounds(s: Seq<char>, i: int)
    requires
        0 <= i <= s.len(),
    ensures
        i <= page_mark(s, i) <= s.len(),
        page_mark(s, i) < s.len() ==> page_mark(s, i) + 2 <= s.len(),
    decreases s.len() - i,
{
    if i + 1 < s.len() && !(s[i] == '_' && s[i + 1] == 'p') {
        page_mark_bounds(s, i + 1);
    }
}

proof fn digits_end_bounds(s: Seq<char>, i: int)
    requires
        0 <= i <= s.len(),
    ensures
        i <= digits_end(s, i) <= s.len(),
    decreases s.len() - i,
{
    if i < s.len() && is_digit(s[i]) {
        digits_end_bounds(s, i + 1);
    }
}

/// The prefix is the beginning of the stem, and with the method and the
/// underscore between them it makes up the stem again, where there is a method.
pub proof fn stem_splits(s: Seq<char>)
    ensures
        0 <= prefix_end(s) <= s.len(),
        stem_prefix(s) == s.take(prefix_end(s)),
        page_mark(s, 0) < s.len() && prefix_end(s) < s.len() && s[prefix_end(s)] == '_' ==> s
            == stem_prefix(s) + seq!['_'] + stem_method(s),
        page_mark(s, 0) == s.len() ==> stem_prefix(s) == s,
{
    page_mark_bounds(s, 0);
    let p = page_mark(s, 0);
    if p < s.len() {
        digits_end_bounds(s, p + 2);
        let e = prefix_end(s);
        if e < s.len() && s[e] == '_' {
            assert(s =~= stem_prefix(s) + seq!['_'] + stem_method(s));
        }
    } else {
        assert(stem_prefix(s) =~= s);
    }
}

proof fn mark_is_found(id: Seq<char>, s: Seq<char>, i: int)
    requires
        0 <= i <= id.len(),
        id.len() + 2 <= s.len(),
        forall|k: int| 0 <= k < id.len() ==> s[k] == id[k],
        s[id.len() as int] == '_',
        s[id.len() as int + 1] == 'p',
        page_mark(id, i) == id.len(),
    ensures
        page_mark(s, i) == id.len(),
    decreases id.len() - i,
{
    if i < id.len() {
        assert(s[i] == id[i]);
        if i + 1 < id.len() {
            assert(s[i + 1] == id[i + 1]);
        }
        mark_is_found(id, s, i + 1);
    }
}

proof fn digits_are_passed(s: Seq<char>, i: int, end: int)
    requires
        0 <= i <= end <= s.len(),
        forall|k: int| i <= k < end ==> is_digit(#[trigger] s[k]),
        end == s.len() || !is_digit(s[end]),
    ensures
        digits_end(s, i) == end,
    decreases end - i,
{
    if i < end {
        assert(is_digit(s[i]));
        digits_are_passed(s, i + 1, end);
    }
}

/// A stem is made of an identifier without page mark, the page mark `_p`, the
/// digits of the page and a rest that does not go on with a digit. Parsing it
/// gives all before the rest as the prefix; the method is what follows the rest's
/// underscore, or `original` where the rest does not start with one.
pub proof fn stem_parses(id: Seq<char>, page: Seq<char>, rest: Seq<char>)
    requires
        page_mark(id, 0) == id.len(),
        forall|k: int| 0 <= k < page.len() ==> is_digit(#[trigger] page[k]),
        rest.len() == 0 || !is_digit(rest[0]),
    ensures
        ({
            let prefix = id + seq!['_', 'p'] + page;
            &&& stem_prefix(prefix + rest) == prefix
            &&& stem_method(prefix + rest) == if rest.len() > 0 && rest[0] == '_' {
                rest.skip(1)
            } else {
                "original"@
            }
        }),
{
    let prefix = id + seq!['_', 'p'] + page;
    let s = prefix + rest;
    let m = id.len() as int;
    let e = prefix.len() as int;
    mark_is_found(id, s, 0);
    assert forall|k: int| m + 2 <= k < e implies is_digit(#[trigger] s[k]) by {
        assert(s[k] == page[k - m - 2]);
    }
    assert(rest.len() > 0 ==> s[e] == rest[0]);
    digits_are_passed(s, m + 2, e);
    assert(s.take(e) =~= prefix);
    if rest.len() > 0 && rest[0] == '_' {
        assert(s.subrange(e + 1, s.len() as int) =~= rest.skip(1));
    }
}

/// A stem without page mark is its own prefix, and its method is `original`.
pub proof fn unmarked_stem_parses(s: Seq<char>)
    requires
        page_mark(s, 0) == s.len(),
    ensures
        stem_prefix(s) == s,
        stem_method(s) == "original"@,
{
    assert(s.take(s.len() as int) =~= s);
}

/// A prefix parses to itself: it is the stem of an original.
pub proof fn prefix_parses_to_itself(s: Seq<char>)
    ensures
        stem_prefix(stem_prefix(s)) == stem_prefix(s),
        stem_method(stem_prefix(s)) == "original"@,
{
    page_mark_bounds(s, 0);
    let m = page_mark(s, 0);
    if m < s.len() {
        digits_end_bounds(s, m + 2);
        let id = s.take(m);
        let e = prefix_end(s);
        let page = s.subrange(m + 2, e);
        mark_is_first(s, 0);
        unmarked_before(s, id, 0);
        digits_are_digits(s, m + 2);
        assert forall|k: int| 0 <= k < page.len() implies is_digit(#[trigger] page[k]) by {
            assert(page[k] == s[k + m + 2]);
        }
        let none: Seq<char> = seq![];
        stem_parses(id, page, none);
        assert(stem_prefix(s) =~= id + seq!['_', 'p'] + page);
        assert(stem_prefix(s) + none =~= stem_prefix(s));
    } else {
        assert(stem_prefix(s) =~= s);
        unmarked_stem_parses(s);
    }
}

proof fn mark_is_first(s: Seq<char>, i: int)
    requires
        0 <= i <= s.len(),
    ensures
        page_mark(s, i) < s.len() ==> s[page_mark(s, i)] == '_' && s[page_mark(s, i) + 1] == 'p',
        forall|k: int|
            i <= k < page_mark(s, i) && k + 1 < s.len() ==> !(#[trigger] s[k] == '_' && s[k + 1]
                == 'p'),
    decreases s.len() - i,
{
    if i + 1 < s.len() && !(s[i] == '_' && s[i + 1] == 'p') {
        mark_is_first(s, i + 1);
    }
}

proof fn unmarked_before(s: Seq<char>, id: Seq<char>, i: int)
    requires
        0 <= i <= id.len() <= s.len(),
        id == s.take(id.len() as int),
        forall|k: int|
            i <= k && k + 1 < id.len() ==> !(#[trigger] s[k] == '_' && s[k + 1] == 'p'),
    ensures
        page_mark(id, i) == id.len(),
    decreases id.len() - i,
{
    if i + 1 < id.len() {
        assert(id[i] == s[i] && id[i + 1] == s[i + 1]);
        unmarked_before(s, id, i + 1);
    }
}

proof fn digits_are_digits(s: Seq<char>, i: int)
    requires
        0 <= i <= s.len(),
    ensures
        forall|k: int| i <= k < digits_end(s, i) ==> is_digit(#[trigger] s[k]),
    decreases s.len() - i,
{
    if i < s.len() && is_digit(s[i]) {
        digits_are_digits(s, i + 1);
    }
}

fn letters(s: &str) -> (v: Vec<char>)
    ensures
        v@ == s@,
{
    let mut v: Vec<char> = Vec::new();
    for c in it: s.chars()
        invariant
            it.seq() == s@,
            v@ == s@.take(it.index()),
    {
        let ghost k = it.index();
        v.push(c);
        assert(s@.take(k + 1) =~= s@.take(k).push(s@[k]));
    }
    assert(s@.take(s@.len() as int) =~= s@);
    v
}

fn join_letters(v: &Vec<char>, from: usize, to: usize) -> (s: String)
    requires
        from <= to <= v@.len(),
    ensures
        s@ == v@.subrange(from as int, to as int),
{
    let mut s = String::new();
    let mut i: usize = from;
    while i < to
        invariant
            from <= i <= to <= v@.len(),
            s@ == v@.subrange(from as int, i as int),
        decreases to - i,
    {
        s.push(v[i]);
        assert(v@.subrange(from as int, i + 1) =~= v@.subrange(from as int, i as int).push(
            v@[i as int],
        ));
        i += 1;
    }
    s
}

/// Splits a stem into its prefix and its method: `100870710_p0_dct_heat` has the
/// prefix `100870710_p0` and the method `dct_heat`; without one the method is
/// `original`.
pub fn parse_stem(stem: &str) -> (r: (String, String))
    ensures
        r.0@ == stem_prefix(stem@),
        r.1@ == stem_method(stem@),
{
    let v = letters(stem);
    let n = v.len();
    proof {
        page_mark_bounds(v@, 0);
    }
    let mut p: usize = 0;
    while n - p > 1 && !(v[p] == '_' && v[p + 1] == 'p')
        invariant
            p <= n,
            n == v@.len(),
            page_mark(v@, 0) == page_mark(v@, p as int),
        decreases n - p,
    {
        p += 1;
    }
    let p: usize = if n - p > 1 {
        p
    } else {
        n
    };
    assert(p == page_mark(v@, 0));
    if p == n {
        let whole = join_letters(&v, 0, n);
        return (whole, String::from_str("original"));
    }
    let mut e: usize = p + 2;
    while e < n && '0' <= v[e] && v[e] <= '9'
        invariant
            p + 2 <= e <= n,
            n == v@.len(),
            digits_end(v@, p + 2) == digits_end(v@, e as int),
        decreases n - e,
    {
        e += 1;
    }
    assert(e == digits_end(v@, p + 2));
    let prefix = join_letters(&v, 0, e);
    let method = if e < n && v[e] == '_' {
        join_letters(&v, e + 1, n)
    } else {
        String::from_str("original")
    };
    (prefix, method)
}

/// The place of the last dot below `k`, or -1.
pub open spec fn last_dot(s: Seq<char>, k: int) -> int
    decreases k,
{
    if k <= 0 {
        -1
    } else if s[k - 1] == '.' {
        k - 1
    } else {
        last_dot(s, k - 1)
    }
}

/// A file name without its extension.
pub open spec fn stem_of(name: Seq<char>) -> Seq<char> {
    let d = last_dot(name, name.len() as int);
    if d < 0 {
        name
    } else {
        name.take(d)
    }
}

/// A file name without its extension: all before the last dot.
pub fn file_stem(name: &str) -> (stem: String)
    ensures
        stem@ == stem_of(name@),
{
    let v = letters(name);
    let n = v.len();
    let mut k: usize = n;
    while k > 0 && v[k - 1] != '.'
        invariant
            k <= n,
            n == v@.len(),
            last_dot(v@, n as int) == last_dot(v@, k as int),
        decreases k,
    {
        k -= 1;
    }
    if k == 0 {
        let s = join_letters(&v, 0, n);
        assert(s@ =~= name@);
        s
    } else {
        let s = join_letters(&v, 0, k - 1);
        assert(s@ =~= name@.take(k - 1));
        s
    }
}

/// The text comes before the other in the order of the characters.
pub open spec fn text_before(a: Seq<char>, b: Seq<char>) -> bool
    decreases a.len(),
{
    if b.len() == 0 {
        false
    } else if a.len() == 0 {
        true
    } else if a[0] == b[0] {
        text_before(a.drop_first(), b.drop_first())
    } else {
        a[0] < b[0]
    }
}

/// The order of texts is strict and total.
pub proof fn text_order(a: Seq<char>, b: Seq<char>, c: Seq<char>)
    ensures
        !text_before(a, a),
        text_before(a, b) && text_before(b, c) ==> text_before(a, c),
        text_before(a, b) || text_before(b, a) || a == b,
        !(text_before(a, b) && text_before(b, a)),
{
    before_itself(a);
    pair_order(a, b);
    if text_before(a, b) && text_before(b, c) {
        chain_order(a, b, c);
    }
}

/// Texts stand in the order of a dictionary: after a common beginning the lesser
/// character decides, and a text comes before every longer one that begins with it.
pub proof fn texts_stand_as_in_a_dictionary(
    start: Seq<char>,
    c: char,
    d: char,
    x: Seq<char>,
    y: Seq<char>,
)
    ensures
        c < d ==> text_before(start + seq![c] + x, start + seq![d] + y),
        d < c ==> !text_before(start + seq![c] + x, start + seq![d] + y),
        text_before(start, start + seq![c] + x),
    decreases start.len(),
{
    let a = start + seq![c] + x;
    let b = start + seq![d] + y;
    if start.len() > 0 {
        let rest = start.drop_first();
        texts_stand_as_in_a_dictionary(rest, c, d, x, y);
        assert(a.drop_first() =~= rest + seq![c] + x);
        assert(b.drop_first() =~= rest + seq![d] + y);
    }
}

proof fn chain_order(a: Seq<char>, b: Seq<char>, c: Seq<char>)
    requires
        text_before(a, b),
        text_before(b, c),
    ensures
        text_before(a, c),
    decreases a.len(),
{
    if a.len() > 0 && a[0] == b[0] && b[0] == c[0] {
        chain_order(a.drop_first(), b.drop_first(), c.drop_first());
    }
}

proof fn before_itself(a: Seq<char>)
    ensures
        !text_before(a, a),
    decreases a.len(),
{
    if a.len() > 0 {
        before_itself(a.drop_first());
    }
}

proof fn pair_order(a: Seq<char>, b: Seq<char>)
    ensures
        text_before(a, b) || text_before(b, a) || a == b,
        !(text_before(a, b) && text_before(b, a)),
    decreases a.len(),
{
    if a.len() == 0 || b.len() == 0 {
        if a.len() == 0 && b.len() == 0 {
            assert(a =~= b);
        }
    } else if a[0] == b[0] {
        pair_order(a.drop_first(), b.drop_first());
        if a.drop_first() == b.drop_first() {
            assert(a =~= seq![a[0]] + a.drop_first());
            assert(b =~= seq![b[0]] + b.drop_first());
        }
    }
}

fn is_before(a: &str, b: &str) -> (r: bool)
    ensures
        r == text_before(a@, b@),
{
    let x = letters(a);
    let y = letters(b);
    let mut i: usize = 0;
    assert(x@.subrange(0, x@.len() as int) =~= x@);
    assert(y@.subrange(0, y@.len() as int) =~= y@);
    while i < x.len() && i < y.len() && x[i] == y[i]
        invariant
            i <= x@.len(),
            i <= y@.len(),
            text_before(x@, y@) == text_before(
                x@.subrange(i as int, x@.len() as int),
                y@.subrange(i as int, y@.len() as int),
            ),
        decreases x@.len() - i,
    {
        let ghost p = x@.subrange(i as int, x@.len() as int);
        let ghost q = y@.subrange(i as int, y@.len() as int);
        assert(p.drop_first() =~= x@.subrange(i + 1, x@.len() as int));
        assert(q.drop_first() =~= y@.subrange(i + 1, y@.len() as int));
        i += 1;
    }
    if i == y.len() {
        false
    } else if i == x.len() {
        true
    } else {
        x[i] < y[i]
    }
}

/// A file of an image: its name and the directory that it was found in.
#[derive(Clone, Debug)]
pub struct ImageFile {
    /// The name of the directory.
    pub source: String,
    /// The path of the directory.
    pub dir: String,
    pub name: String,
    /// The file is one of the originals, whatever its name says.
    pub original: bool,
}

/// An image of a group.
#[derive(Clone, Debug)]
pub struct ImageEntry {
    /// Path of the file.
    pub path: String,
    /// How the image was made.
    pub label: String,
    /// The directory that it was found in.
    pub source: String,
}

/// Images that belong together.
#[derive(Clone, Debug)]
pub struct Group {
    pub prefix: String,
    pub images: Vec<ImageEntry>,
}

/// The texts of an image of a group.
pub ghost struct EntryText {
    pub path: Seq<char>,
    pub label: Seq<char>,
    pub source: Seq<char>,
}

/// The texts of an entry.
pub open spec fn entry_text(e: ImageEntry) -> EntryText {
    EntryText { path: e.path@, label: e.label@, source: e.source@ }
}

/// The texts of entries.
pub open spec fn entry_texts(images: Seq<ImageEntry>) -> Seq<EntryText> {
    Seq::new(images.len(), |i: int| entry_text(images[i]))
}

/// The prefix by which a file is grouped.
pub open spec fn file_prefix(f: ImageFile) -> Seq<char> {
    stem_prefix(stem_of(f.name@))
}

/// The entry of a file.
pub open spec fn file_entry(f: ImageFile) -> EntryText {
    EntryText {
        path: f.dir@ + "/"@ + f.name@,
        label: if f.original {
            "original"@
        } else {
            stem_method(stem_of(f.name@))
        },
        source: f.source@,
    }
}

/// The entries of the first `k` files with a prefix, in order.
pub open spec fn entries_of(files: Seq<ImageFile>, prefix: Seq<char>, k: int) -> Seq<EntryText>
    decreases k,
{
    if k <= 0 {
        seq![]
    } else if file_prefix(files[k - 1]) == prefix {
        entries_of(files, prefix, k - 1).push(file_entry(files[k - 1]))
    } else {
        entries_of(files, prefix, k - 1)
    }
}

/// The groups are in the order of their prefixes, no prefix twice.
pub open spec fn in_text_order(groups: Seq<Group>) -> bool {
    forall|i: int, j: int|
        #![trigger groups[i], groups[j]]
        0 <= i < j < groups.len() ==> text_before(groups[i].prefix@, groups[j].prefix@)
}

/// Some group has the prefix.
pub open spec fn has_group(groups: Seq<Group>, prefix: Seq<char>) -> bool {
    exists|g: int| 0 <= g < groups.len() && #[trigger] groups[g].prefix@ == prefix
}

/// The groups of the first `k` files.
pub open spec fn groups_of(files: Seq<ImageFile>, k: int, groups: Seq<Group>) -> bool {
    &&& in_text_order(groups)
    &&& forall|g: int|
        #![trigger groups[g]]
        0 <= g < groups.len() ==> entry_texts(groups[g].images@) == entries_of(
            files,
            groups[g].prefix@,
            k,
        ) && groups[g].images@.len() > 0
    &&& forall|f: int|
        #![trigger files[f]]
        0 <= f < k ==> has_group(groups, file_prefix(files[f]))
}

fn make_entry(f: &ImageFile, method: String) -> (e: ImageEntry)
    requires
        method@ == stem_method(stem_of(f.name@)),
    ensures
        entry_text(e) == file_entry(*f),
{
    let mut path = String::from_str(f.dir.as_str());
    path.append("/");
    path.append(f.name.as_str());
    let label = if f.original {
        String::from_str("original")
    } else {
        method
    };
    ImageEntry { path, label, source: String::from_str(f.source.as_str()) }
}

/// A prefix that no group has has no entries yet.
proof fn no_group_no_entries(files: Seq<ImageFile>, prefix: Seq<char>, k: int, groups: Seq<Group>)
    requires
        0 <= k <= files.len(),
        forall|f: int|
            #![trigger files[f]]
            0 <= f < k ==> has_group(groups, file_prefix(files[f])),
        !has_group(groups, prefix),
    ensures
        entries_of(files, prefix, k) == Seq::<EntryText>::empty(),
    decreases k,
{
    if k > 0 {
        no_group_no_entries(files, prefix, k - 1, groups);
        assert(has_group(groups, file_prefix(files[k - 1])));
    }
}

/// Groups files by their prefixes: the groups in the order of the prefixes, the
/// images of a group in the order of the files.
pub fn group_files(files: &Vec<ImageFile>) -> (groups: Vec<Group>)
    ensures
        groups_of(files@, files@.len() as int, groups@),
{
    let mut groups: Vec<Group> = Vec::new();
    let mut i: usize = 0;
    while i < files.len()
        invariant
            i <= files@.len(),
            groups_of(files@, i as int, groups@),
        decreases files@.len() - i,
    {
        let stem = file_stem(files[i].name.as_str());
        let (prefix, method) = parse_stem(stem.as_str());
        let entry = make_entry(&files[i], method);
        let ghost before = groups@;
        let ghost p = prefix@;
        let mut g: usize = 0;
        while g < groups.len() && is_before(groups[g].prefix.as_str(), prefix.as_str())
            invariant
                g <= groups@.len(),
                groups@ == before,
                p == prefix@,
                forall|q: int|
                    #![trigger before[q]]
                    0 <= q < g ==> text_before(before[q].prefix@, p),
            decreases groups@.len() - g,
        {
            g += 1;
        }
        let known = g < groups.len() && groups[g].prefix == prefix;
        if known {
            let mut group = groups.remove(g);
            group.images.push(entry);
            groups.insert(g, group);
            proof {
                add_to_group(files@, i as int, before, groups@, g as int, entry);
            }
        } else {
            let mut images: Vec<ImageEntry> = Vec::new();
            images.push(entry);
            groups.insert(g, Group { prefix, images });
            proof {
                add_group(files@, i as int, before, groups@, g as int, entry);
            }
        }
        i += 1;
    }
    groups
}

proof fn add_to_group(
    files: Seq<ImageFile>,
    i: int,
    before: Seq<Group>,
    after: Seq<Group>,
    g: int,
    entry: ImageEntry,
)
    requires
        0 <= i < files.len(),
        groups_of(files, i, before),
        0 <= g < before.len(),
        after.len() == before.len(),
        forall|q: int| #![trigger after[q]] 0 <= q < after.len() && q != g ==> after[q] == before[q],
        after[g].prefix@ == before[g].prefix@,
        after[g].images@ == before[g].images@.push(entry),
        before[g].prefix@ == file_prefix(files[i]),
        entry_text(entry) == file_entry(files[i]),
    ensures
        groups_of(files, i + 1, after),
{
    assert forall|a: int, b: int| #![trigger after[a], after[b]] 0 <= a < b < after.len() implies
        text_before(after[a].prefix@, after[b].prefix@) by {
        assert(after[a].prefix@ == before[a].prefix@);
        assert(after[b].prefix@ == before[b].prefix@);
        assert(text_before(before[a].prefix@, before[b].prefix@));
    }
    assert forall|q: int| #![trigger after[q]] 0 <= q < after.len() implies entry_texts(
        after[q].images@,
    ) == entries_of(files, after[q].prefix@, i + 1) && after[q].images@.len() > 0 by {
        assert(entry_texts(before[q].images@) == entries_of(files, before[q].prefix@, i));
        if q == g {
            assert(entry_texts(after[g].images@) =~= entry_texts(before[g].images@).push(
                file_entry(files[i]),
            ));
        } else {
            if q < g {
                assert(text_before(before[q].prefix@, before[g].prefix@));
            } else {
                assert(text_before(before[g].prefix@, before[q].prefix@));
            }
            before_itself(before[g].prefix@);
        }
    }
    assert forall|f: int| #![trigger files[f]] 0 <= f < i + 1 implies has_group(
        after,
        file_prefix(files[f]),
    ) by {
        if f < i {
            assert(has_group(before, file_prefix(files[f])));
            let q = choose|q: int|
                0 <= q < before.len() && #[trigger] before[q].prefix@ == file_prefix(files[f]);
            assert(after[q].prefix@ == before[q].prefix@);
        } else {
            assert(after[g].prefix@ == file_prefix(files[f]));
        }
    }
}

proof fn add_group(
    files: Seq<ImageFile>,
    i: int,
    before: Seq<Group>,
    after: Seq<Group>,
    g: int,
    entry: ImageEntry,
)
    requires
        0 <= i < files.len(),
        groups_of(files, i, before),
        0 <= g <= before.len(),
        after == before.insert(g, after[g]),
        after[g].prefix@ == file_prefix(files[i]),
        after[g].images@ == seq![entry],
        entry_text(entry) == file_entry(files[i]),
        forall|q: int|
            #![trigger before[q]]
            0 <= q < g ==> text_before(before[q].prefix@, file_prefix(files[i])),
        g < before.len() ==> !text_before(before[g].prefix@, file_prefix(files[i]))
            && before[g].prefix@ != file_prefix(files[i]),
    ensures
        groups_of(files, i + 1, after),
{
    let p = file_prefix(files[i]);
    assert forall|q: int| #![trigger before[q]] g <= q < before.len() implies text_before(
        p,
        before[q].prefix@,
    ) by {
        text_order(before[g].prefix@, p, p);
        if q > g {
            assert(text_before(before[g].prefix@, before[q].prefix@));
            text_order(p, before[g].prefix@, before[q].prefix@);
        }
    }
    assert(!has_group(before, p)) by {
        if has_group(before, p) {
            let q = choose|q: int|
                0 <= q < before.len() && #[trigger] before[q].prefix@ == p;
            before_itself(p);
        }
    }
    no_group_no_entries(files, p, i, before);
    assert forall|a: int, b: int| #![trigger after[a], after[b]] 0 <= a < b < after.len() implies
        text_before(after[a].prefix@, after[b].prefix@) by {
        let qa = if a < g {
            a
        } else {
            a - 1
        };
        let qb = if b < g {
            b
        } else {
            b - 1
        };
        if a != g {
            assert(after[a] == before[qa]);
        }
        if b != g {
            assert(after[b] == before[qb]);
        }
        if a != g && b != g {
            assert(text_before(before[qa].prefix@, before[qb].prefix@));
        }
    }
    assert forall|q: int| #![trigger after[q]] 0 <= q < after.len() implies entry_texts(
        after[q].images@,
    ) == entries_of(files, after[q].prefix@, i + 1) && after[q].images@.len() > 0 by {
        if q == g {
            assert(entry_texts(after[g].images@) =~= entries_of(files, p, i).push(
                file_entry(files[i]),
            ));
        } else {
            let b = if q < g {
                q
            } else {
                q - 1
            };
            assert(after[q] == before[b]);
            assert(entry_texts(before[b].images@) == entries_of(files, before[b].prefix@, i));
            assert(before[b].prefix@ != p) by {
                before_itself(p);
            }
        }
    }
    assert forall|f: int| #![trigger files[f]] 0 <= f < i + 1 implies has_group(
        after,
        file_prefix(files[f]),
    ) by {
        if f < i {
            assert(has_group(before, file_prefix(files[f])));
            let q = choose|q: int|
                0 <= q < before.len() && #[trigger] before[q].prefix@ == file_prefix(files[f]);
            let a = if q < g {
                q
            } else {
                q + 1
            };
            assert(after[a] == before[q]);
            assert(after[a].prefix@ == file_prefix(files[f]));
        } else {
            assert(after[g].prefix@ == file_prefix(files[f]));
        }
    }
}

/// Number of entries of the first `m` groups, as far as the first `k` files go.
pub open spec fn entries_sum(files: Seq<ImageFile>, groups: Seq<Group>, m: int, k: int) -> nat
    decreases m,
{
    if m <= 0 {
        0
    } else {
        entries_sum(files, groups, m - 1, k) + entries_of(files, groups[m - 1].prefix@, k).len()
    }
}

/// Every file is in exactly one group: the sizes of the groups add up to the
/// number of files.
pub proof fn groups_add_up(files: Seq<ImageFile>, groups: Seq<Group>, k: int)
    requires
        0 <= k <= files.len(),
        in_text_order(groups),
        forall|f: int|
            #![trigger files[f]]
            0 <= f < k ==> has_group(groups, file_prefix(files[f])),
    ensures
        entries_sum(files, groups, groups.len() as int, k) == k,
    decreases k,
{
    let m = groups.len() as int;
    if k == 0 {
        no_entries(files, groups, m);
    } else {
        groups_add_up(files, groups, k - 1);
        assert(has_group(groups, file_prefix(files[k - 1])));
        let g = choose|g: int|
            0 <= g < groups.len() && #[trigger] groups[g].prefix@ == file_prefix(files[k - 1]);
        one_more_entry(files, groups, m, k, g);
    }
}

proof fn no_entries(files: Seq<ImageFile>, groups: Seq<Group>, m: int)
    ensures
        entries_sum(files, groups, m, 0) == 0,
    decreases m,
{
    if m > 0 {
        no_entries(files, groups, m - 1);
    }
}

proof fn one_more_entry(files: Seq<ImageFile>, groups: Seq<Group>, m: int, k: int, g: int)
    requires
        0 < k <= files.len(),
        0 <= m <= groups.len(),
        0 <= g < groups.len(),
        in_text_order(groups),
        groups[g].prefix@ == file_prefix(files[k - 1]),
    ensures
        entries_sum(files, groups, m, k) == entries_sum(files, groups, m, k - 1) + if g < m {
            1nat
        } else {
            0nat
        },
    decreases m,
{
    if m > 0 {
        one_more_entry(files, groups, m - 1, k, g);
        if m - 1 != g {
            before_itself(groups[g].prefix@);
            if m - 1 < g {
                assert(text_before(groups[m - 1].prefix@, groups[g].prefix@));
            } else {
                assert(text_before(groups[g].prefix@, groups[m - 1].prefix@));
            }
        }
    }
}

/// The lower-case form of an ASCII letter; any other character stays.
pub open spec fn lower(c: char) -> char {
    if 'A' <= c <= 'Z' {
        ((c as u8) + 32) as u8 as char
    } else {
        c
    }
}

/// The extension is that of an image file, in whatever case.
pub open spec fn image_extension(ext: Seq<char>) -> bool {
    let low = Seq::new(ext.len(), |i: int| lower(ext[i]));
    low == "jpg"@ || low == "jpeg"@ || low == "png"@
}

/// A name is its stem, or its stem, a dot and an ending without a dot.
pub proof fn stems_end_at_last_dot(name: Seq<char>) -> (ending: Seq<char>)
    ensures
        (forall|i: int| 0 <= i < name.len() ==> name[i] != '.') ==> stem_of(name) == name,
        (exists|i: int| 0 <= i < name.len() && name[i] == '.') ==> name == stem_of(name) + seq!['.']
            + ending,
        forall|i: int| 0 <= i < ending.len() ==> ending[i] != '.',
{
    let d = last_dot(name, name.len() as int);
    dot_is_last(name, name.len() as int);
    if d < 0 {
        seq![]
    } else {
        let ending = name.skip(d + 1);
        assert(name =~= name.take(d) + seq!['.'] + ending);
        ending
    }
}

proof fn dot_is_last(s: Seq<char>, k: int)
    requires
        0 <= k <= s.len(),
    ensures
        -1 <= last_dot(s, k) < k || k == 0,
        last_dot(s, k) >= 0 ==> s[last_dot(s, k)] == '.',
        forall|i: int| last_dot(s, k) < i < k ==> s[i] != '.',
        last_dot(s, k) >= -1,
    decreases k,
{
    if k > 0 {
        dot_is_last(s, k - 1);
    }
}

/// A file is listed in the group of its prefix, by its path in its directory, and
/// an original is labelled so whatever its name says.
pub proof fn files_are_listed_in_their_group(
    files: Seq<ImageFile>,
    groups: Seq<Group>,
    f: int,
) -> (at: (int, int))
    requires
        groups_of(files, files.len() as int, groups),
        0 <= f < files.len(),
    ensures
        0 <= at.0 < groups.len(),
        0 <= at.1 < groups[at.0].images@.len(),
        groups[at.0].prefix@ == stem_prefix(stem_of(files[f].name@)),
        groups[at.0].images@[at.1].path@ == files[f].dir@ + "/"@ + files[f].name@,
        groups[at.0].images@[at.1].source@ == files[f].source@,
        files[f].original ==> groups[at.0].images@[at.1].label@ == "original"@,
        !files[f].original ==> groups[at.0].images@[at.1].label@ == stem_method(
            stem_of(files[f].name@),
        ),
{
    let n = files.len() as int;
    let prefix = file_prefix(files[f]);
    assert(has_group(groups, prefix));
    let g = choose|g: int| 0 <= g < groups.len() && #[trigger] groups[g].prefix@ == prefix;
    let i = entry_is_listed(files, prefix, n, f);
    let e = groups[g].images@;
    assert(entry_texts(e) == entries_of(files, prefix, n));
    assert(entry_texts(e)[i] == file_entry(files[f]));
    assert(entry_text(e[i]) == file_entry(files[f]));
    (g, i)
}

proof fn entry_is_listed(files: Seq<ImageFile>, prefix: Seq<char>, k: int, f: int) -> (i: int)
    requires
        0 <= f < k <= files.len(),
        file_prefix(files[f]) == prefix,
    ensures
        0 <= i < entries_of(files, prefix, k).len(),
        entries_of(files, prefix, k)[i] == file_entry(files[f]),
    decreases k,
{
    if f == k - 1 {
        entries_of(files, prefix, k).len() - 1
    } else {
        let i = entry_is_listed(files, prefix, k - 1, f);
        assert(entries_of(files, prefix, k)[i] == entries_of(files, prefix, k - 1)[i]);
        i
    }
}

/// The case of an extension's letters makes no difference, and in small letters only
/// `jpg`, `jpeg` and `png` make an image.
pub proof fn extensions_ignore_case(a: Seq<char>, b: Seq<char>)
    requires
        a.len() == b.len(),
        forall|i: int|
            0 <= i < a.len() ==> #[trigger] a[i] == b[i] || ('A' <= a[i] <= 'Z' && b[i] as int
                == a[i] as int + 32),
        forall|i: int| 0 <= i < b.len() ==> !('A' <= #[trigger] b[i] <= 'Z'),
    ensures
        image_extension(a) == image_extension(b),
        image_extension(b) <==> b == "jpg"@ || b == "jpeg"@ || b == "png"@,
{
    let la = Seq::new(a.len(), |i: int| lower(a[i]));
    let lb = Seq::new(b.len(), |i: int| lower(b[i]));
    assert forall|i: int| 0 <= i < a.len() implies la[i] == lb[i] by {
        assert(a[i] == b[i] || ('A' <= a[i] <= 'Z' && b[i] as int == a[i] as int + 32));
        assert(!('A' <= b[i] <= 'Z'));
    }
    assert(la =~= lb);
    assert(lb =~= b);
}

/// Whether an extension is that of an image file.
pub fn is_image_extension(ext: &str) -> (r: bool)
    ensures
        r == image_extension(ext@),
{
    let v = letters(ext);
    let mut low = String::new();
    let mut i: usize = 0;
    while i < v.len()
        invariant
            i <= v@.len(),
            v@ == ext@,
            low@.len() == i,
            forall|k: int| #![trigger low@[k]] 0 <= k < i ==> low@[k] == lower(ext@[k]),
        decreases v@.len() - i,
    {
        let c = v[i];
        if 'A' <= c && c <= 'Z' {
            low.push((c as u8 + 32) as char);
        } else {
            low.push(c);
        }
        i += 1;
    }
    assert(low@ =~= Seq::new(ext@.len(), |i: int| lower(ext@[i])));
    low == String::from_str("jpg") || low == String::from_str("jpeg") || low == String::from_str(
        "png",
    )
}

} // verus!
