//! The rows from which the data-component enum is generated: each
//! component's name, its variant name, its current id and its older id,
//! read from the name-to-id tables of the two numberings.

use std::collections::BTreeMap;
use vstd::prelude::*;

use crate::component::{ComponentEntry, ComponentTable, table_of, table_unique};
use crate::text::string_from_chars;

verus! {

/// The name-to-id pairs that the JSON object `text` maps, in key order, or
/// `None` if `text` is not such an object with values in `0..=255`.
pub uninterp spec fn json_name_ids(text: Seq<char>) -> Option<Seq<(Seq<char>, u8)>>;

/// The PascalCase form of `s`.
pub uninterp spec fn pascal_case(s: Seq<char>) -> Seq<char>;

/// Parses a JSON object of names to `u8` ids with `serde_json::from_str`
/// into a `BTreeMap<String, u8>` and lists its pairs in the map's (key)
/// order. What the pairs are is left to the name `json_name_ids`; the
/// contract ties the result to the text and says that, as keys of a map, no
/// two of the names are the same.
#[verifier::external_body]
fn parse_name_ids(text: &str) -> (r: Option<Vec<(String, u8)>>)
    ensures
        r is None <==> json_name_ids(text@) is None,
        r matches Some(v) ==> json_name_ids(text@) == Some(name_ids_view(v@)),
        r matches Some(v) ==> distinct_names(name_ids_view(v@)),
{
    serde_json::from_str::<BTreeMap<String, u8>>(text).ok().map(|m| m.into_iter().collect())
}

/// Converts `s` with `heck::ToPascalCase::to_pascal_case`. Its result is left
/// to the name `pascal_case`.
#[verifier::external_body]
fn to_pascal_case(s: &str) -> (r: String)
    ensures
        r@ == pascal_case(s@),
{
    heck::ToPascalCase::to_pascal_case(s)
}

/// The pairs of a table as character sequences.
pub open spec fn name_ids_view(v: Seq<(String, u8)>) -> Seq<(Seq<char>, u8)> {
    v.map_values(|p: (String, u8)| (p.0@, p.1))
}

/// The pairs of `s` with id `k`, in order.
pub open spec fn with_id(s: Seq<(Seq<char>, u8)>, k: u8) -> Seq<(Seq<char>, u8)>
    decreases s.len(),
{
    if s.len() == 0 {
        Seq::empty()
    } else {
        let r = with_id(s.drop_last(), k);
        if s.last().1 == k {
            r.push(s.last())
        } else {
            r
        }
    }
}

/// The pairs of `s` with ids below `k`, by id and, for equal ids, in their
/// order in `s`.
pub open spec fn sorted_below(s: Seq<(Seq<char>, u8)>, k: nat) -> Seq<(Seq<char>, u8)>
    decreases k,
{
    if k == 0 {
        Seq::empty()
    } else {
        sorted_below(s, (k - 1) as nat) + with_id(s, (k - 1) as u8)
    }
}

/// The pairs of `s` stably sorted by id.
pub open spec fn sorted_by_id(s: Seq<(Seq<char>, u8)>) -> Seq<(Seq<char>, u8)> {
    sorted_below(s, 256)
}

/// The namespace every component name carries.
pub open spec fn namespace() -> Seq<char> {
    "minecraft:"@
}

/// `name` starts with the namespace.
pub open spec fn has_namespace(name: Seq<char>) -> bool {
    name.len() >= namespace().len() && name.take(namespace().len() as int) == namespace()
}

/// Every name of `s` carries the namespace.
pub open spec fn all_namespaced(s: Seq<(Seq<char>, u8)>) -> bool {
    forall|i: int| 0 <= i < s.len() ==> has_namespace(#[trigger] s[i].0)
}

/// `name` without its namespace, each `/` replaced by `_`.
pub open spec fn strip_name(name: Seq<char>) -> Seq<char> {
    name.skip(namespace().len() as int).map_values(
        |c: char|
            if c == '/' {
                '_'
            } else {
                c
            },
    )
}

/// The id paired with `name` in `table`, if any (the first, should a name
/// occur twice).
pub open spec fn id_of_name(table: Seq<(Seq<char>, u8)>, name: Seq<char>) -> Option<u8>
    decreases table.len(),
{
    if table.len() == 0 {
        None
    } else if table[0].0 == name {
        Some(table[0].1)
    } else {
        id_of_name(table.drop_first(), name)
    }
}

/// One generated component: its namespaced name, its name without
/// namespace, its variant name, its current id and its older id.
#[derive(Debug)]
pub struct GeneratedComponent {
    pub raw_name: String,
    pub strip_name: String,
    pub variant: String,
    pub id: u8,
    pub legacy_id: Option<u8>,
}

/// The content of a generated row.
pub type RowView = (Seq<char>, Seq<char>, Seq<char>, u8, Option<u8>);

impl View for GeneratedComponent {
    type V = RowView;

    open spec fn view(&self) -> RowView {
        (self.raw_name@, self.strip_name@, self.variant@, self.id, self.legacy_id)
    }
}

/// The row generated for pair `e` given the older table `legacy`.
pub open spec fn expected_row(e: (Seq<char>, u8), legacy: Seq<(Seq<char>, u8)>) -> RowView {
    (e.0, strip_name(e.0), pascal_case(strip_name(e.0)), e.1, id_of_name(legacy, e.0))
}

/// Why the rows could not be generated.
#[derive(Debug)]
pub enum CodegenError {
    /// The current table is not a JSON object of names to `u8` ids.
    UnreadableTable,
    /// The older table is not a JSON object of names to `u8` ids.
    UnreadableLegacyTable,
    /// A name lacks the `minecraft:` namespace.
    MissingNamespace(String),
}

fn sort_by_id(current: &Vec<(String, u8)>) -> (sorted: Vec<(String, u8)>)
    ensures
        name_ids_view(sorted@) == sorted_by_id(name_ids_view(current@)),
{
    let ghost cv = name_ids_view(current@);
    let n = current.len();
    let mut sorted: Vec<(String, u8)> = Vec::new();
    let mut k: u32 = 0;
    while k < 256
        invariant
            k <= 256,
            n == current@.len(),
            cv == name_ids_view(current@),
            name_ids_view(sorted@) == sorted_below(cv, k as nat),
        decreases 256 - k,
    {
        let ghost base = name_ids_view(sorted@);
        let mut i: usize = 0;
        while i < n
            invariant
                k < 256,
                i <= n,
                n == current@.len(),
                cv == name_ids_view(current@),
                name_ids_view(sorted@) == base + with_id(cv.take(i as int), k as u8),
            decreases n - i,
        {
            proof {
                assert(cv.take(i + 1).drop_last() =~= cv.take(i as int));
                assert(cv.take(i + 1).last() == cv[i as int]);
            }
            if current[i].1 == k as u8 {
                let ghost before = sorted@;
                sorted.push((current[i].0.clone(), current[i].1));
                proof {
                    assert(name_ids_view(sorted@) =~= name_ids_view(before).push(cv[i as int]));
                }
            }
            i = i + 1;
        }
        proof {
            assert(cv.take(n as int) =~= cv);
        }
        k = k + 1;
    }
    sorted
}

/// `name` without its namespace and with `/` replaced by `_`, or `None` if
/// it lacks the namespace.
fn strip_namespace(name: &String) -> (r: Option<String>)
    ensures
        r is None <==> !has_namespace(name@),
        r matches Some(s) ==> s@ == strip_name(name@),
{
    let ns = "minecraft:";
    let s = name.as_str();
    let len = s.unicode_len();
    let ns_len = ns.unicode_len();
    proof {
        assert(ns@ == namespace());
    }
    if len < ns_len {
        return None;
    }
    let mut i: usize = 0;
    while i < ns_len
        invariant
            ns_len == namespace().len(),
            ns@ == namespace(),
            s@ == name@,
            len == s@.len(),
            ns_len <= len,
            i <= ns_len,
            forall|j: int| 0 <= j < i ==> s@[j] == namespace()[j],
        decreases ns_len - i,
    {
        if s.get_char(i) != ns.get_char(i) {
            return None;
        }
        i = i + 1;
    }
    proof {
        assert(s@.take(ns_len as int) =~= namespace());
    }
    let mut out: Vec<char> = Vec::new();
    let mut j: usize = ns_len;
    while j < len
        invariant
            ns_len == namespace().len(),
            s@ == name@,
            len == s@.len(),
            ns_len <= j <= len,
            out@ == s@.subrange(ns_len as int, j as int).map_values(
                |c: char|
                    if c == '/' {
                        '_'
                    } else {
                        c
                    },
            ),
        decreases len - j,
    {
        let c = s.get_char(j);
        if c == '/' {
            out.push('_');
        } else {
            out.push(c);
        }
        proof {
            assert(out@ =~= s@.subrange(ns_len as int, j + 1).map_values(
                |c: char|
                    if c == '/' {
                        '_'
                    } else {
                        c
                    },
            ));
        }
        j = j + 1;
    }
    proof {
        assert(s@.subrange(ns_len as int, len as int) =~= s@.skip(ns_len as int));
    }
    Some(string_from_chars(&out))
}

fn lookup_name(table: &Vec<(String, u8)>, name: &String) -> (r: Option<u8>)
    ensures
        r == id_of_name(name_ids_view(table@), name@),
{
    let ghost tv = name_ids_view(table@);
    let n = table.len();
    let mut i: usize = 0;
    assert(tv.skip(0) =~= tv);
    while i < n
        invariant
            n == table@.len(),
            tv == name_ids_view(table@),
            i <= n,
            id_of_name(tv, name@) == id_of_name(tv.skip(i as int), name@),
        decreases n - i,
    {
        proof {
            assert(tv.skip(i as int).drop_first() =~= tv.skip(i + 1));
            assert(tv.skip(i as int)[0] == tv[i as int]);
        }
        if table[i].0 == *name {
            return Some(table[i].1);
        }
        i = i + 1;
    }
    proof {
        assert(tv.skip(n as int).len() == 0);
    }
    None
}

/// The rows for the current table `current` and the older table `legacy`:
/// one per current pair, sorted by id (ties keeping table order), each with
/// its name stripped of the namespace and with `/` made `_`, the PascalCase
/// of that as variant name, and the older id of the same name, if any.
/// Fails, naming the first offender, where a name lacks the namespace.
pub fn component_rows(current: &Vec<(String, u8)>, legacy: &Vec<(String, u8)>) -> (r: Result<
    Vec<GeneratedComponent>,
    CodegenError,
>)
    ensures
        r is Err <==> !all_namespaced(name_ids_view(current@)),
        r matches Ok(rows) ==> rows@.len() == current@.len() && forall|i: int|
            0 <= i < rows@.len() ==> #[trigger] rows@[i]@ == expected_row(
                sorted_by_id(name_ids_view(current@))[i],
                name_ids_view(legacy@),
            ),
        r matches Ok(rows) ==> rows@.map_values(|g: GeneratedComponent| (g.id, g.legacy_id))
            == rows_table(sorted_by_id(name_ids_view(current@)), name_ids_view(legacy@)),
{
    let sorted = sort_by_id(current);
    let ghost sv = name_ids_view(sorted@);
    let ghost lv = name_ids_view(legacy@);
    proof {
        lemma_sorted_is_permutation(name_ids_view(current@));
    }
    let n = sorted.len();
    let mut rows: Vec<GeneratedComponent> = Vec::new();
    let mut i: usize = 0;
    while i < n
        invariant
            n == sorted@.len(),
            sv == name_ids_view(sorted@),
            lv == name_ids_view(legacy@),
            sv == sorted_by_id(name_ids_view(current@)),
            sv.len() == current@.len(),
            forall|x: (Seq<char>, u8)| #[trigger] sv.contains(x) ==> name_ids_view(current@).contains(
                x,
            ),
            forall|x: (Seq<char>, u8)| #[trigger] name_ids_view(current@).contains(x) ==> sv.contains(
                x,
            ),
            i <= n,
            rows@.len() == i,
            forall|j: int| 0 <= j < i ==> has_namespace(#[trigger] sv[j].0),
            forall|j: int|
                0 <= j < i ==> #[trigger] rows@[j]@ == expected_row(sv[j], lv),
        decreases n - i,
    {
        let raw_name = &sorted[i].0;
        let strip = match strip_namespace(raw_name) {
            Some(s) => s,
            None => {
                proof {
                    let x = sv[i as int];
                    assert(sv.contains(x));
                    let cv = name_ids_view(current@);
                    let k = choose|k: int| 0 <= k < cv.len() && cv[k] == x;
                    assert(!has_namespace(cv[k].0));
                }
                return Err(CodegenError::MissingNamespace(raw_name.clone()));
            },
        };
        let variant = to_pascal_case(strip.as_str());
        let legacy_id = lookup_name(legacy, raw_name);
        rows.push(
            GeneratedComponent {
                raw_name: raw_name.clone(),
                strip_name: strip,
                variant,
                id: sorted[i].1,
                legacy_id,
            },
        );
        i = i + 1;
    }
    proof {
        let cv = name_ids_view(current@);
        assert forall|i: int| 0 <= i < cv.len() implies has_namespace(#[trigger] cv[i].0) by {
            let x = cv[i];
            assert(cv.contains(x));
            let k = choose|k: int| 0 <= k < sv.len() && sv[k] == x;
            assert(has_namespace(sv[k].0));
        }
        let a = rows@.map_values(|g: GeneratedComponent| (g.id, g.legacy_id));
        let b = rows_table(sv, lv);
        assert forall|j: int| 0 <= j < a.len() implies a[j] == b[j] by {
            assert(rows@[j]@ == expected_row(sv[j], lv));
        }
        assert(a =~= b);
    }
    Ok(rows)
}

/// `with_id` keeps exactly the pairs of `s` with id `k`.
proof fn lemma_with_id_contains(s: Seq<(Seq<char>, u8)>, k: u8, x: (Seq<char>, u8))
    ensures
        with_id(s, k).contains(x) <==> s.contains(x) && x.1 == k,
        with_id(s, k).len() <= s.len(),
    decreases s.len(),
{
    if s.len() > 0 {
        lemma_with_id_contains(s.drop_last(), k, x);
        let r = with_id(s.drop_last(), k);
        if s.contains(x) && x.1 == k {
            let j = choose|j: int| 0 <= j < s.len() && s[j] == x;
            if j < s.len() - 1 {
                assert(s.drop_last()[j] == x);
            }
        }
        if with_id(s, k).contains(x) {
            let j = choose|j: int| 0 <= j < with_id(s, k).len() && with_id(s, k)[j] == x;
            if s.last().1 == k && j == r.len() {
                assert(s[s.len() - 1] == x);
            } else {
                assert(r[j] == x);
                let m = choose|m: int| 0 <= m < s.drop_last().len() && s.drop_last()[m] == x;
                assert(s[m] == x);
            }
        }
        if s.drop_last().contains(x) {
            let m = choose|m: int| 0 <= m < s.drop_last().len() && s.drop_last()[m] == x;
            assert(s[m] == x);
        }
        if s.last().1 == k {
            assert(with_id(s, k)[r.len() as int] == s.last());
            if r.contains(x) {
                let m = choose|m: int| 0 <= m < r.len() && r[m] == x;
                assert(with_id(s, k)[m] == x);
            }
        }
    }
}

/// The number of pairs of `s` with id below `k`.
spec fn count_below(s: Seq<(Seq<char>, u8)>, k: nat) -> nat
    decreases s.len(),
{
    if s.len() == 0 {
        0
    } else {
        count_below(s.drop_last(), k) + if (s.last().1 as nat) < k {
            1nat
        } else {
            0nat
        }
    }
}

proof fn lemma_with_id_len(s: Seq<(Seq<char>, u8)>, k: nat)
    requires
        k < 256,
    ensures
        with_id(s, k as u8).len() + count_below(s, k) == count_below(s, k + 1),
    decreases s.len(),
{
    if s.len() > 0 {
        lemma_with_id_len(s.drop_last(), k);
    }
}

proof fn lemma_sorted_below_len(s: Seq<(Seq<char>, u8)>, k: nat)
    requires
        k <= 256,
    ensures
        sorted_below(s, k).len() == count_below(s, k),
    decreases k,
{
    if k == 0 {
        lemma_count_below_zero(s);
    } else {
        lemma_sorted_below_len(s, (k - 1) as nat);
        lemma_with_id_len(s, (k - 1) as nat);
    }
}

proof fn lemma_count_below_zero(s: Seq<(Seq<char>, u8)>)
    ensures
        count_below(s, 0) == 0,
    decreases s.len(),
{
    if s.len() > 0 {
        lemma_count_below_zero(s.drop_last());
    }
}

proof fn lemma_count_below_all(s: Seq<(Seq<char>, u8)>)
    ensures
        count_below(s, 256) == s.len(),
    decreases s.len(),
{
    if s.len() > 0 {
        lemma_count_below_all(s.drop_last());
    }
}

proof fn lemma_sorted_below_contains(s: Seq<(Seq<char>, u8)>, k: nat, x: (Seq<char>, u8))
    requires
        k <= 256,
    ensures
        sorted_below(s, k).contains(x) <==> s.contains(x) && (x.1 as nat) < k,
    decreases k,
{
    if k > 0 {
        lemma_sorted_below_contains(s, (k - 1) as nat, x);
        lemma_with_id_contains(s, (k - 1) as u8, x);
        let a = sorted_below(s, (k - 1) as nat);
        let b = with_id(s, (k - 1) as u8);
        if (a + b).contains(x) {
            let j = choose|j: int| 0 <= j < (a + b).len() && (a + b)[j] == x;
            if j < a.len() {
                assert(a[j] == x);
            } else {
                assert(b[j - a.len()] == x);
            }
        }
        if a.contains(x) {
            let j = choose|j: int| 0 <= j < a.len() && a[j] == x;
            assert((a + b)[j] == x);
        }
        if b.contains(x) {
            let j = choose|j: int| 0 <= j < b.len() && b[j] == x;
            assert((a + b)[a.len() + j] == x);
        }
    }
}

proof fn lemma_with_id_ids(s: Seq<(Seq<char>, u8)>, k: u8)
    ensures
        forall|i: int| 0 <= i < with_id(s, k).len() ==> #[trigger] with_id(s, k)[i].1 == k,
    decreases s.len(),
{
    if s.len() > 0 {
        lemma_with_id_ids(s.drop_last(), k);
        let r = with_id(s.drop_last(), k);
        assert forall|i: int| 0 <= i < with_id(s, k).len() implies #[trigger] with_id(s, k)[i].1
            == k by {
            if i < r.len() {
                assert(with_id(s, k)[i] == r[i]);
            }
        }
    }
}

proof fn lemma_sorted_below_ordered(s: Seq<(Seq<char>, u8)>, k: nat)
    requires
        k <= 256,
    ensures
        forall|i: int|
            0 <= i < sorted_below(s, k).len() ==> (#[trigger] sorted_below(s, k)[i].1 as nat) < k,
        forall|i: int, j: int|
            0 <= i < j < sorted_below(s, k).len() ==> #[trigger] sorted_below(s, k)[i].1
                <= #[trigger] sorted_below(s, k)[j].1,
    decreases k,
{
    if k > 0 {
        lemma_sorted_below_ordered(s, (k - 1) as nat);
        lemma_with_id_ids(s, (k - 1) as u8);
        let a = sorted_below(s, (k - 1) as nat);
        let b = with_id(s, (k - 1) as u8);
        let c = sorted_below(s, k);
        assert(c == a + b);
        assert forall|i: int| 0 <= i < c.len() implies (#[trigger] c[i].1 as nat) < k by {
            if i >= a.len() {
                assert(c[i] == b[i - a.len()]);
            }
        }
        assert forall|i: int, j: int| 0 <= i < j < c.len() implies #[trigger] c[i].1
            <= #[trigger] c[j].1 by {
            if j < a.len() {
                assert(c[i] == a[i] && c[j] == a[j]);
            } else if i >= a.len() {
                assert(c[i] == b[i - a.len()] && c[j] == b[j - a.len()]);
            } else {
                assert(c[i] == a[i] && c[j] == b[j - a.len()]);
            }
        }
    }
}

/// The generated rows come in order of current id.
pub proof fn lemma_rows_ordered_by_id(s: Seq<(Seq<char>, u8)>)
    ensures
        forall|i: int, j: int|
            0 <= i < j < sorted_by_id(s).len() ==> #[trigger] sorted_by_id(s)[i].1
                <= #[trigger] sorted_by_id(s)[j].1,
{
    lemma_sorted_below_ordered(s, 256);
}

/// Sorting by id keeps the number of pairs and exactly the pairs.
pub proof fn lemma_sorted_is_permutation(s: Seq<(Seq<char>, u8)>)
    ensures
        sorted_by_id(s).len() == s.len(),
        forall|x: (Seq<char>, u8)| #[trigger] sorted_by_id(s).contains(x) ==> s.contains(x),
        forall|x: (Seq<char>, u8)| #[trigger] s.contains(x) ==> sorted_by_id(s).contains(x),
{
    lemma_sorted_below_len(s, 256);
    lemma_count_below_all(s);
    assert forall|x: (Seq<char>, u8)| #[trigger] sorted_by_id(s).contains(x) implies s.contains(
        x,
    ) by {
        lemma_sorted_below_contains(s, 256, x);
    }
    assert forall|x: (Seq<char>, u8)| #[trigger] s.contains(x) implies sorted_by_id(s).contains(
        x,
    ) by {
        lemma_sorted_below_contains(s, 256, x);
    }
}

/// No two pairs of `s` share a name.
pub open spec fn distinct_names(s: Seq<(Seq<char>, u8)>) -> bool {
    forall|i: int, j: int| 0 <= i < j < s.len() ==> #[trigger] s[i].0 != #[trigger] s[j].0
}

/// No two pairs of `s` share an id.
pub open spec fn distinct_ids(s: Seq<(Seq<char>, u8)>) -> bool {
    forall|i: int, j: int| 0 <= i < j < s.len() ==> #[trigger] s[i].1 != #[trigger] s[j].1
}

proof fn lemma_with_id_no_dup(s: Seq<(Seq<char>, u8)>, k: u8)
    requires
        s.no_duplicates(),
    ensures
        with_id(s, k).no_duplicates(),
    decreases s.len(),
{
    if s.len() > 0 {
        let q = s.drop_last();
        assert(q.no_duplicates()) by {
            assert forall|i: int, j: int| 0 <= i < q.len() && 0 <= j < q.len() && i != j implies q[i]
                != q[j] by {
                assert(q[i] == s[i] && q[j] == s[j]);
            }
        }
        lemma_with_id_no_dup(q, k);
        let r = with_id(q, k);
        if s.last().1 == k {
            let x = s.last();
            lemma_with_id_contains(q, k, x);
            if q.contains(x) {
                let m = choose|m: int| 0 <= m < q.len() && q[m] == x;
                assert(s[m] == s[s.len() - 1]);
            }
            assert forall|i: int, j: int| 0 <= i < r.len() && 0 <= j < seq![x].len() implies r[i]
                != seq![x][j] by {
                if r[i] == x {
                    assert(r.contains(x));
                }
            }
            vstd::seq_lib::lemma_no_dup_in_concat(r, seq![x]);
            assert(r + seq![x] =~= r.push(x));
        }
    }
}

proof fn lemma_sorted_below_no_dup(s: Seq<(Seq<char>, u8)>, k: nat)
    requires
        s.no_duplicates(),
        k <= 256,
    ensures
        sorted_below(s, k).no_duplicates(),
    decreases k,
{
    if k > 0 {
        lemma_sorted_below_no_dup(s, (k - 1) as nat);
        lemma_with_id_no_dup(s, (k - 1) as u8);
        lemma_sorted_below_ordered(s, (k - 1) as nat);
        lemma_with_id_ids(s, (k - 1) as u8);
        let a = sorted_below(s, (k - 1) as nat);
        let b = with_id(s, (k - 1) as u8);
        assert forall|i: int, j: int| 0 <= i < a.len() && 0 <= j < b.len() implies a[i] != b[j] by {
            assert((a[i].1 as nat) < k - 1);
            assert(b[j].1 == (k - 1) as u8);
        }
        vstd::seq_lib::lemma_no_dup_in_concat(a, b);
    }
}

proof fn lemma_sorted_sources(s: Seq<(Seq<char>, u8)>, i: int, j: int) -> (ab: (int, int))
    requires
        s.no_duplicates(),
        0 <= i < sorted_by_id(s).len(),
        0 <= j < sorted_by_id(s).len(),
        i != j,
    ensures
        0 <= ab.0 < s.len(),
        0 <= ab.1 < s.len(),
        ab.0 != ab.1,
        s[ab.0] == sorted_by_id(s)[i],
        s[ab.1] == sorted_by_id(s)[j],
{
    let t = sorted_by_id(s);
    lemma_sorted_is_permutation(s);
    lemma_sorted_below_no_dup(s, 256);
    assert(t.contains(t[i]) && t.contains(t[j]));
    let a = choose|a: int| 0 <= a < s.len() && s[a] == t[i];
    let b = choose|b: int| 0 <= b < s.len() && s[b] == t[j];
    (a, b)
}

proof fn lemma_distinct_names_no_dup(s: Seq<(Seq<char>, u8)>)
    requires
        distinct_names(s),
    ensures
        s.no_duplicates(),
{
    assert forall|i: int, j: int| 0 <= i < s.len() && 0 <= j < s.len() && i != j implies s[i]
        != s[j] by {
        if i < j {
            assert(s[i].0 != s[j].0);
        } else {
            assert(s[j].0 != s[i].0);
        }
    }
}

/// Where the current table names each component once, the generated rows
/// name each once too: sorting by id keeps the number of pairs and exactly
/// the pairs, so every name of the table gives one row, and no name two.
pub proof fn lemma_rows_one_per_name(s: Seq<(Seq<char>, u8)>)
    requires
        distinct_names(s),
    ensures
        sorted_by_id(s).len() == s.len(),
        forall|x: (Seq<char>, u8)| #[trigger] sorted_by_id(s).contains(x) <==> s.contains(x),
        distinct_names(sorted_by_id(s)),
{
    lemma_sorted_is_permutation(s);
    lemma_distinct_names_no_dup(s);
    let t = sorted_by_id(s);
    assert forall|i: int, j: int| 0 <= i < j < t.len() implies #[trigger] t[i].0 != #[trigger] t[j].0 by {
        let (a, b) = lemma_sorted_sources(s, i, j);
        if a < b {
            assert(s[a].0 != s[b].0);
        } else {
            assert(s[b].0 != s[a].0);
        }
    }
}

/// The registry table of the rows generated from the pairs `s` (in that
/// order) with the older table `legacy`: per row, its id and the older id
/// of its name.
pub open spec fn rows_table(s: Seq<(Seq<char>, u8)>, legacy: Seq<(Seq<char>, u8)>) -> ComponentTable {
    s.map_values(|e: (Seq<char>, u8)| (e.1, id_of_name(legacy, e.0)))
}

proof fn lemma_id_of_name_found(table: Seq<(Seq<char>, u8)>, name: Seq<char>) -> (k: int)
    requires
        id_of_name(table, name) is Some,
    ensures
        0 <= k < table.len(),
        table[k].0 == name,
        table[k].1 == id_of_name(table, name).unwrap(),
    decreases table.len(),
{
    if table[0].0 == name {
        0
    } else {
        let k = lemma_id_of_name_found(table.drop_first(), name);
        k + 1
    }
}

/// Where the current table names each component once and gives each its
/// own id, and the older table gives each name its own id, the generated
/// rows form a registry table without shared ids: no two rows share a
/// current id, and no two share an older id. A registry built from them
/// then takes each older id back to its component (see
/// `lemma_legacy_id_inverse` and `lemma_from_legacy_inverse`).
pub proof fn lemma_rows_table_unique(current: Seq<(Seq<char>, u8)>, legacy: Seq<(Seq<char>, u8)>)
    requires
        distinct_names(current),
        distinct_ids(current),
        distinct_ids(legacy),
    ensures
        table_unique(rows_table(sorted_by_id(current), legacy)),
{
    let s = sorted_by_id(current);
    let t = rows_table(s, legacy);
    lemma_rows_one_per_name(current);
    lemma_distinct_names_no_dup(current);
    assert forall|i: int, j: int|
        0 <= i < t.len() && 0 <= j < t.len() && i != j implies #[trigger] t[i].0 != #[trigger] t[j].0
            && (t[i].1 is Some ==> t[i].1 != t[j].1) by {
        let (a, b) = lemma_sorted_sources(current, i, j);
        if a < b {
            assert(current[a].1 != current[b].1);
        } else {
            assert(current[b].1 != current[a].1);
        }
        if t[i].1 is Some && t[i].1 == t[j].1 {
            let ka = lemma_id_of_name_found(legacy, s[i].0);
            let kb = lemma_id_of_name_found(legacy, s[j].0);
            if ka < kb {
                assert(legacy[ka].1 != legacy[kb].1);
            } else if kb < ka {
                assert(legacy[kb].1 != legacy[ka].1);
            }
            if i < j {
                assert(s[i].0 != s[j].0);
            } else {
                assert(s[j].0 != s[i].0);
            }
        }
    }
}

/// The rows for the JSON texts of the current and the older table (see
/// `component_rows`); fails where either text is not a JSON object of names
/// to `u8` ids.
pub fn build_component_rows(current_json: &str, legacy_json: &str) -> (r: Result<
    Vec<GeneratedComponent>,
    CodegenError,
>)
    ensures
        json_name_ids(current_json@) is None ==> r matches Err(CodegenError::UnreadableTable),
        json_name_ids(current_json@) is Some && json_name_ids(legacy_json@) is None ==> r matches Err(
            CodegenError::UnreadableLegacyTable,
        ),
        r matches Ok(rows) ==> json_name_ids(current_json@) matches Some(cur) && json_name_ids(
            legacy_json@,
        ) matches Some(leg) && rows@.len() == cur.len() && forall|i: int|
            0 <= i < rows@.len() ==> #[trigger] rows@[i]@ == expected_row(sorted_by_id(cur)[i], leg),
        json_name_ids(current_json@) matches Some(cur) ==> json_name_ids(legacy_json@) is Some ==> (
        r is Err <==> !all_namespaced(cur)),
        r matches Ok(rows) ==> json_name_ids(current_json@) matches Some(cur) && json_name_ids(
            legacy_json@,
        ) matches Some(leg) && distinct_names(cur) && rows@.map_values(
            |g: GeneratedComponent| (g.id, g.legacy_id),
        ) == rows_table(sorted_by_id(cur), leg),
        r matches Ok(rows) ==> forall|i: int, j: int|
            0 <= i < j < rows@.len() ==> #[trigger] rows@[i].raw_name@ != #[trigger] rows@[j].raw_name@,
{
    let current = match parse_name_ids(current_json) {
        Some(c) => c,
        None => {
            return Err(CodegenError::UnreadableTable);
        },
    };
    let legacy = match parse_name_ids(legacy_json) {
        Some(l) => l,
        None => {
            return Err(CodegenError::UnreadableLegacyTable);
        },
    };
    let r = component_rows(&current, &legacy);
    proof {
        let cur = name_ids_view(current@);
        lemma_rows_one_per_name(cur);
        if r is Ok {
            let rows = r->Ok_0;
            assert forall|i: int, j: int| 0 <= i < j < rows@.len() implies #[trigger] rows@[i].raw_name@
                != #[trigger] rows@[j].raw_name@ by {
                assert(rows@[i]@ == expected_row(sorted_by_id(cur)[i], name_ids_view(legacy@)));
                assert(rows@[j]@ == expected_row(sorted_by_id(cur)[j], name_ids_view(legacy@)));
            }
        }
    }
    r
}

/// The registry rows of generated components: name, current id, older id.
pub fn component_entries(rows: &Vec<GeneratedComponent>) -> (entries: Vec<ComponentEntry>)
    ensures
        entries@.len() == rows@.len(),
        forall|i: int|
            0 <= i < rows@.len() ==> {
                &&& #[trigger] entries@[i].name@ == rows@[i].raw_name@
                &&& entries@[i].id == rows@[i].id
                &&& entries@[i].legacy_id == rows@[i].legacy_id
            },
        table_of(entries@) == rows@.map_values(|r: GeneratedComponent| (r.id, r.legacy_id)),
{
    let mut entries: Vec<ComponentEntry> = Vec::new();
    let n = rows.len();
    let mut i: usize = 0;
    while i < n
        invariant
            n == rows@.len(),
            i <= n,
            entries@.len() == i,
            forall|j: int|
                0 <= j < i ==> {
                    &&& #[trigger] entries@[j].name@ == rows@[j].raw_name@
                    &&& entries@[j].id == rows@[j].id
                    &&& entries@[j].legacy_id == rows@[j].legacy_id
                },
        decreases n - i,
    {
        entries.push(
            ComponentEntry {
                name: rows[i].raw_name.clone(),
                id: rows[i].id,
                legacy_id: rows[i].legacy_id,
            },
        );
        i = i + 1;
    }
    proof {
        let a = table_of(entries@);
        let b = rows@.map_values(|r: GeneratedComponent| (r.id, r.legacy_id));
        assert(a.len() == b.len());
        assert forall|j: int| 0 <= j < a.len() implies a[j] == b[j] by {
            assert(entries@[j].name@ == rows@[j].raw_name@);
        }
        assert(a =~= b);
    }
    entries
}

} // verus!
