//! Layered configuration values: tables of named values that are looked up
//! by dotted paths (`"web.port"`) and merged layer over layer.
use vstd::prelude::*;

verus! {

/// A configuration value (the data of a TOML document).
#[derive(Debug)]
pub enum ConfigValue {
    String(String),
    Integer(i64),
    Boolean(bool),
    /// A float or a date-time, kept as its TOML text.
    Literal(String),
    Array(Vec<ConfigValue>),
    /// Named entries; a name occurs at most once.
    Table(Vec<(String, ConfigValue)>),
}

/// Position of the first entry of `t` named `k`, or `t.len()`.
pub open spec fn entry_index(t: Seq<(String, ConfigValue)>, k: Seq<char>) -> int
    decreases t.len(),
{
    if t.len() == 0 {
        0
    } else if t[0].0@ == k {
        0
    } else {
        1 + entry_index(t.drop_first(), k)
    }
}

/// The table has an entry named `k`.
pub open spec fn has_entry(t: Seq<(String, ConfigValue)>, k: Seq<char>) -> bool {
    exists|i: int| 0 <= i < t.len() && #[trigger] t[i].0@ == k
}

/// The value of the entry named `k` (meaningful when `has_entry(t, k)`).
pub open spec fn entry_value(t: Seq<(String, ConfigValue)>, k: Seq<char>) -> ConfigValue {
    t[entry_index(t, k)].1
}

/// No two entries share a name.
pub open spec fn distinct_names(t: Seq<(String, ConfigValue)>) -> bool {
    forall|i: int, j: int| 0 <= i < t.len() && 0 <= j < t.len() && i != j ==> #[trigger] t[i].0@ != #[trigger] t[j].0@
}

/// `r` is `overlay` laid over `base`: two tables merge entry by entry (an
/// entry present in both is merged in turn, an entry present in one is
/// taken from it); any other overlay replaces the base.
pub open spec fn is_merge(base: ConfigValue, overlay: ConfigValue, r: ConfigValue) -> bool
    decreases r,
{
    match overlay {
        ConfigValue::Table(ot) => match base {
            ConfigValue::Table(bt) => match r {
                ConfigValue::Table(rt) => {
                    &&& distinct_names(rt@)
                    &&& forall|k: Seq<char>| #[trigger] has_entry(rt@, k) <==> (has_entry(bt@, k) || has_entry(ot@, k))
                    &&& forall|i: int|
                        #![trigger rt@[i]]
                        0 <= i < rt@.len() ==> {
                            let k = rt@[i].0@;
                            if has_entry(bt@, k) && has_entry(ot@, k) {
                                is_merge(entry_value(bt@, k), entry_value(ot@, k), rt@[i].1)
                            } else if has_entry(ot@, k) {
                                rt@[i].1 == entry_value(ot@, k)
                            } else {
                                rt@[i].1 == entry_value(bt@, k)
                            }
                        }
                },
                _ => false,
            },
            _ => r == overlay,
        },
        _ => r == overlay,
    }
}


/// Every table, at any depth, names each entry at most once.
pub open spec fn config_well_formed(v: ConfigValue) -> bool
    decreases v,
{
    match v {
        ConfigValue::Table(t) => {
            &&& distinct_names(t@)
            &&& forall|i: int| #![trigger t@[i]] 0 <= i < t@.len() ==> config_well_formed(t@[i].1)
        },
        _ => true,
    }
}

pub proof fn lemma_entry_index(t: Seq<(String, ConfigValue)>, k: Seq<char>)
    ensures
        0 <= entry_index(t, k) <= t.len(),
        entry_index(t, k) < t.len() ==> t[entry_index(t, k)].0@ == k,
        forall|i: int| 0 <= i < entry_index(t, k) ==> #[trigger] t[i].0@ != k,
        has_entry(t, k) <==> entry_index(t, k) < t.len(),
    decreases t.len(),
{
    if t.len() > 0 && t[0].0@ != k {
        lemma_entry_index(t.drop_first(), k);
        assert forall|i: int| 0 <= i < entry_index(t, k) implies #[trigger] t[i].0@ != k by {
            if i > 0 {
                assert(t[i] == t.drop_first()[i - 1]);
            }
        }
        if has_entry(t, k) {
            let i = choose|i: int| 0 <= i < t.len() && #[trigger] t[i].0@ == k;
            assert(t.drop_first()[i - 1].0@ == k);
        }
        if entry_index(t, k) < t.len() {
            assert(t[entry_index(t, k)] == t.drop_first()[entry_index(t, k) - 1]);
        }
    } else if t.len() > 0 {
        assert(t[0].0@ == k);
    }
}

/// With distinct names, the entry named `k` is the one at any position holding `k`.
pub proof fn lemma_entry_at(t: Seq<(String, ConfigValue)>, i: int)
    requires
        distinct_names(t),
        0 <= i < t.len(),
    ensures
        entry_index(t, t[i].0@) == i,
        has_entry(t, t[i].0@),
        entry_value(t, t[i].0@) == t[i].1,
{
    lemma_entry_index(t, t[i].0@);
}

/// Position of the entry named `k`, if any.
pub fn find_entry(t: &Vec<(String, ConfigValue)>, k: &String) -> (r: Option<usize>)
    ensures
        match r {
            Some(i) => i as int == entry_index(t@, k@) && i < t@.len(),
            None => !has_entry(t@, k@),
        },
{
    proof {
        lemma_entry_index(t@, k@);
    }
    let mut i: usize = 0;
    while i < t.len()
        invariant
            i <= t@.len(),
            forall|j: int| 0 <= j < i ==> #[trigger] t@[j].0@ != k@,
        decreases t@.len() - i,
    {
        if t[i].0 == *k {
            assert(entry_index(t@, k@) == i) by {
                lemma_entry_index(t@, k@);
                if entry_index(t@, k@) < i {
                    assert(t@[entry_index(t@, k@)].0@ == k@);
                }
            }
            return Some(i);
        }
        i = i + 1;
    }
    proof {
        lemma_entry_index(t@, k@);
        if has_entry(t@, k@) {
            assert(t@[entry_index(t@, k@)].0@ == k@);
        }
    }
    None
}


/// `rt` is the table `bt` with the entries of `ot` laid over it.
pub open spec fn is_table_merge(
    bt: Seq<(String, ConfigValue)>,
    ot: Seq<(String, ConfigValue)>,
    rt: Seq<(String, ConfigValue)>,
) -> bool {
    &&& distinct_names(rt)
    &&& forall|k: Seq<char>| #[trigger] has_entry(rt, k) <==> (has_entry(bt, k) || has_entry(ot, k))
    &&& forall|i: int|
        #![trigger rt[i]]
        0 <= i < rt.len() ==> {
            let k = rt[i].0@;
            if has_entry(bt, k) && has_entry(ot, k) {
                is_merge(entry_value(bt, k), entry_value(ot, k), rt[i].1)
            } else if has_entry(ot, k) {
                rt[i].1 == entry_value(ot, k)
            } else {
                rt[i].1 == entry_value(bt, k)
            }
        }
}

proof fn lemma_push_entry(s: Seq<(String, ConfigValue)>, e: (String, ConfigValue), k: Seq<char>)
    ensures
        has_entry(s.push(e), k) <==> (has_entry(s, k) || e.0@ == k),
        has_entry(s, k) ==> entry_value(s.push(e), k) == entry_value(s, k),
        !has_entry(s, k) && e.0@ == k ==> entry_value(s.push(e), k) == e.1,
{
    let t = s.push(e);
    lemma_entry_index(s, k);
    lemma_entry_index(t, k);
    if has_entry(s, k) {
        let i = entry_index(s, k);
        assert(t[i] == s[i]);
        if entry_index(t, k) < i {
            assert(s[entry_index(t, k)] == t[entry_index(t, k)]);
        }
        assert(has_entry(t, k));
        assert(entry_index(t, k) == i);
    } else if e.0@ == k {
        assert(t[s.len() as int].0@ == k);
        assert(has_entry(t, k));
        if entry_index(t, k) < s.len() {
            assert(s[entry_index(t, k)] == t[entry_index(t, k)]);
        }
    } else {
        if has_entry(t, k) {
            let j = choose|j: int| 0 <= j < t.len() && #[trigger] t[j].0@ == k;
            if j < s.len() {
                assert(s[j].0@ == k);
            }
        }
    }
}

proof fn lemma_prefix_entry(ot: Seq<(String, ConfigValue)>, j: int, k: Seq<char>)
    requires
        distinct_names(ot),
        0 <= j < ot.len(),
    ensures
        ot.subrange(0, j + 1) == ot.subrange(0, j).push(ot[j]),
        has_entry(ot.subrange(0, j), k) ==> entry_value(ot.subrange(0, j), k) == entry_value(ot, k),
        has_entry(ot.subrange(0, j), k) ==> has_entry(ot, k),
        ot[j].0@ == k ==> !has_entry(ot.subrange(0, j), k),
        ot[j].0@ == k ==> entry_value(ot, k) == ot[j].1 && has_entry(ot, k),
{
    let p = ot.subrange(0, j);
    assert(ot.subrange(0, j + 1) =~= p.push(ot[j]));
    lemma_entry_index(p, k);
    lemma_entry_index(ot, k);
    if has_entry(p, k) {
        let i = entry_index(p, k);
        assert(p[i] == ot[i]);
        assert(has_entry(ot, k));
        lemma_entry_at(ot, i);
    }
    if ot[j].0@ == k {
        lemma_entry_at(ot, j);
        if has_entry(p, k) {
            let i = choose|i: int| 0 <= i < p.len() && #[trigger] p[i].0@ == k;
            assert(ot[i].0@ == ot[j].0@);
        }
    }
}

/// Lays `overlay` over `base`: two tables merge entry by entry (recursively
/// for entries present in both); any other overlay replaces the base.
pub fn merge_config_values(base: ConfigValue, overlay: ConfigValue) -> (r: ConfigValue)
    requires
        config_well_formed(base),
        config_well_formed(overlay),
    ensures
        is_merge(base, overlay, r),
        config_well_formed(r),
    decreases overlay, 1int,
{
    let ghost overlay0 = overlay;
    match overlay {
        ConfigValue::Table(ot) => match base {
            ConfigValue::Table(bt) => {
                let ghost bt0 = bt;
                let ghost ot0 = ot;
                assert(decreases_to!(overlay0 => ot0));
                let rt = merge_tables(bt, ot, Ghost(overlay0));
                let r = ConfigValue::Table(rt);
                assert(is_merge(ConfigValue::Table(bt0), ConfigValue::Table(ot0), r));
                r
            },
            _ => ConfigValue::Table(ot),
        },
        other => other,
    }
}

fn merge_tables(bt: Vec<(String, ConfigValue)>, ot: Vec<(String, ConfigValue)>, Ghost(outer): Ghost<ConfigValue>) -> (rt: Vec<(String, ConfigValue)>)
    requires
        config_well_formed(ConfigValue::Table(bt)),
        config_well_formed(ConfigValue::Table(ot)),
        outer == ConfigValue::Table(ot),
    ensures
        is_table_merge(bt@, ot@, rt@),
        config_well_formed(ConfigValue::Table(rt)),
    decreases outer, 0int,
{
    let ghost b0 = bt@;
    let ghost o0 = ot@;
    let ghost ot_g = ot;
    let n_o = ot.len();
    let mut result = bt;
    let mut rest = ot;
    let mut j: usize = 0;
    proof {
        assert(o0.subrange(0, 0) =~= Seq::<(String, ConfigValue)>::empty());
        assert forall|i: int| #![trigger result@[i]] 0 <= i < result@.len() implies {
            let k = result@[i].0@;
            !has_entry(o0.subrange(0, 0), k) && result@[i].1 == entry_value(b0, k)
        } by {
            lemma_entry_at(b0, i);
        }
    }
    while rest.len() > 0
        invariant
            j <= o0.len(),
            o0.len() == n_o,
            ot_g@ == o0,
            outer == ConfigValue::Table(ot_g),
            rest@ == o0.subrange(j as int, o0.len() as int),
            distinct_names(b0),
            distinct_names(o0),
            forall|i: int| #![trigger b0[i]] 0 <= i < b0.len() ==> config_well_formed(b0[i].1),
            forall|i: int| #![trigger o0[i]] 0 <= i < o0.len() ==> config_well_formed(o0[i].1),
            is_table_merge(b0, o0.subrange(0, j as int), result@),
            forall|i: int| #![trigger result@[i]] 0 <= i < result@.len() ==> config_well_formed(result@[i].1),
        decreases rest@.len(),
    {
        let ghost pre = o0.subrange(0, j as int);
        let ghost before = result@;
        assert(rest@[0] == o0[j as int]);
        let entry = rest.remove(0);
        assert(rest@ == o0.subrange(j + 1, o0.len() as int));
        let (k, ov) = entry;
        proof {
            lemma_prefix_entry(o0, j as int, k@);
        }
        match find_entry(&result, &k) {
            Some(p) => {
                proof {
                    lemma_entry_index(result@, k@);
                }
                let (bk, bv) = result.remove(p);
                assert(has_entry(b0, k@));
                assert(bv == entry_value(b0, k@));
                proof {
                    assert(o0[j as int].1 == ov);
                    assert(decreases_to!(ot_g => ot_g@));
                    assert(decreases_to!(ot_g@ => ot_g@[j as int]));
                    assert(decreases_to!(ot_g@[j as int] => ot_g@[j as int].1));
                    assert(decreases_to!(ot_g => ov));
                    assert(outer->Table_0 == ot_g);
                    assert(decreases_to!(outer => outer->Table_0));
                    assert(decreases_to!(outer => ov));
                }
                let merged = merge_config_values(bv, ov);
                result.insert(p, (bk, merged));
                assert(result@ =~= before.update(p as int, (bk, merged)));
                assert forall|kk: Seq<char>| #[trigger] has_entry(result@, kk) <==> (has_entry(b0, kk) || has_entry(o0.subrange(0, j + 1), kk)) by {
                    lemma_push_entry(pre, o0[j as int], kk);
                    if has_entry(before, kk) {
                        let q = choose|q: int| 0 <= q < before.len() && #[trigger] before[q].0@ == kk;
                        assert(result@[q].0@ == kk);
                    }
                    if has_entry(result@, kk) {
                        let q = choose|q: int| 0 <= q < result@.len() && #[trigger] result@[q].0@ == kk;
                        assert(before[q].0@ == kk);
                    }
                }
                assert(distinct_names(result@)) by {
                    assert forall|a: int, b: int| 0 <= a < result@.len() && 0 <= b < result@.len() && a != b implies #[trigger] result@[a].0@ != #[trigger] result@[b].0@ by {
                        assert(result@[a].0@ == before[a].0@);
                        assert(result@[b].0@ == before[b].0@);
                    }
                }
                assert forall|i: int| #![trigger result@[i]] 0 <= i < result@.len() implies {
                    let kk = result@[i].0@;
                    if has_entry(b0, kk) && has_entry(o0.subrange(0, j + 1), kk) {
                        is_merge(entry_value(b0, kk), entry_value(o0.subrange(0, j + 1), kk), result@[i].1)
                    } else if has_entry(o0.subrange(0, j + 1), kk) {
                        result@[i].1 == entry_value(o0.subrange(0, j + 1), kk)
                    } else {
                        result@[i].1 == entry_value(b0, kk)
                    }
                } by {
                    let kk = result@[i].0@;
                    lemma_push_entry(pre, o0[j as int], kk);
                    if i == p as int {
                        assert(kk == k@);
                    } else {
                        assert(result@[i] == before[i]);
                        assert(before[i].0@ != before[p as int].0@);
                    }
                }
                assert forall|i: int| #![trigger result@[i]] 0 <= i < result@.len() implies config_well_formed(result@[i].1) by {
                    if i != p as int {
                        assert(result@[i] == before[i]);
                    }
                }
            },
            None => {
                result.push((k, ov));
                assert forall|kk: Seq<char>| #[trigger] has_entry(result@, kk) <==> (has_entry(b0, kk) || has_entry(o0.subrange(0, j + 1), kk)) by {
                    lemma_push_entry(pre, o0[j as int], kk);
                    lemma_push_entry(before, (k, ov), kk);
                }
                assert(distinct_names(result@)) by {
                    assert forall|a: int, b: int| 0 <= a < result@.len() && 0 <= b < result@.len() && a != b implies #[trigger] result@[a].0@ != #[trigger] result@[b].0@ by {
                        if a == before.len() {
                            assert(before[b].0@ == result@[b].0@);
                        } else if b == before.len() {
                            assert(before[a].0@ == result@[a].0@);
                        }
                    }
                }
                assert forall|i: int| #![trigger result@[i]] 0 <= i < result@.len() implies {
                    let kk = result@[i].0@;
                    if has_entry(b0, kk) && has_entry(o0.subrange(0, j + 1), kk) {
                        is_merge(entry_value(b0, kk), entry_value(o0.subrange(0, j + 1), kk), result@[i].1)
                    } else if has_entry(o0.subrange(0, j + 1), kk) {
                        result@[i].1 == entry_value(o0.subrange(0, j + 1), kk)
                    } else {
                        result@[i].1 == entry_value(b0, kk)
                    }
                } by {
                    let kk = result@[i].0@;
                    lemma_push_entry(pre, o0[j as int], kk);
                    if i == before.len() {
                        assert(kk == k@);
                    } else {
                        assert(result@[i] == before[i]);
                        assert(kk != k@);
                    }
                }
                assert forall|i: int| #![trigger result@[i]] 0 <= i < result@.len() implies config_well_formed(result@[i].1) by {
                    if i < before.len() {
                        assert(result@[i] == before[i]);
                    }
                }
            },
        }
        j = j + 1;
    }
    assert(o0.subrange(0, o0.len() as int) == o0);
    result
}


/// Position of the first `.` in `s`, or `s.len()`.
pub open spec fn first_dot(s: Seq<char>) -> int
    decreases s.len(),
{
    if s.len() == 0 {
        0
    } else if s[0] == '.' {
        0
    } else {
        1 + first_dot(s.drop_first())
    }
}

/// The segments of `path` between dots (`"a.b"` gives `"a"`, `"b"`; a path
/// without dots is a single segment).
pub open spec fn split_path(path: Seq<char>) -> Seq<Seq<char>>
    decreases path.len(),
{
    let d = first_dot(path);
    proof {
        lemma_first_dot(path);
    }
    if d >= path.len() {
        seq![path]
    } else {
        seq![path.subrange(0, d)] + split_path(path.subrange(d + 1, path.len() as int))
    }
}

/// The value reached from `v` by following the entries named `keys` in turn.
pub open spec fn lookup_keys(v: ConfigValue, keys: Seq<Seq<char>>) -> Option<ConfigValue>
    decreases keys.len(),
{
    if keys.len() == 0 {
        Some(v)
    } else {
        match v {
            ConfigValue::Table(t) => if has_entry(t@, keys[0]) {
                lookup_keys(entry_value(t@, keys[0]), keys.drop_first())
            } else {
                None
            },
            _ => None,
        }
    }
}

/// The value at a dotted path (`"web.port"`) below `v`.
pub open spec fn lookup_path(v: ConfigValue, path: Seq<char>) -> Option<ConfigValue> {
    lookup_keys(v, split_path(path))
}

/// One step of a lookup: the entry named `k` of a table.
pub open spec fn lookup_step(v: ConfigValue, k: Seq<char>) -> Option<ConfigValue> {
    match v {
        ConfigValue::Table(t) => if has_entry(t@, k) {
            Some(entry_value(t@, k))
        } else {
            None
        },
        _ => None,
    }
}

#[verifier::spinoff_prover]
pub proof fn lemma_lookup_push(v: ConfigValue, keys: Seq<Seq<char>>, k: Seq<char>)
    ensures
        lookup_keys(v, keys.push(k)) == match lookup_keys(v, keys) {
            Some(u) => lookup_step(u, k),
            None => None,
        },
    decreases keys.len(),
{
    if keys.len() == 0 {
        assert(keys.push(k).drop_first() =~= Seq::<Seq<char>>::empty());
        assert(keys.push(k)[0] == k);
        match v {
            ConfigValue::Table(t) => {
                if has_entry(t@, k) {
                    assert(lookup_keys(entry_value(t@, k), Seq::<Seq<char>>::empty()) == Some(entry_value(t@, k)));
                }
            },
            _ => {},
        }
    } else {
        assert(keys.push(k).drop_first() =~= keys.drop_first().push(k));
        assert(keys.push(k)[0] == keys[0]);
        match v {
            ConfigValue::Table(t) => {
                if has_entry(t@, keys[0]) {
                    lemma_lookup_push(entry_value(t@, keys[0]), keys.drop_first(), k);
                }
            },
            _ => {},
        }
    }
}

pub proof fn lemma_first_dot(s: Seq<char>)
    ensures
        0 <= first_dot(s) <= s.len(),
        first_dot(s) < s.len() ==> s[first_dot(s)] == '.',
        forall|i: int| 0 <= i < first_dot(s) ==> #[trigger] s[i] != '.',
    decreases s.len(),
{
    if s.len() > 0 && s[0] != '.' {
        lemma_first_dot(s.drop_first());
        assert forall|i: int| 0 <= i < first_dot(s) implies #[trigger] s[i] != '.' by {
            if i > 0 {
                assert(s[i] == s.drop_first()[i - 1]);
            }
        }
        if first_dot(s) < s.len() {
            assert(s[first_dot(s)] == s.drop_first()[first_dot(s) - 1]);
        }
    }
}

proof fn lemma_first_dot_at(s: Seq<char>, i: int)
    requires
        0 <= i <= s.len(),
        forall|j: int| 0 <= j < i ==> #[trigger] s[j] != '.',
        i == s.len() || s[i] == '.',
    ensures
        first_dot(s) == i,
{
    lemma_first_dot(s);
    if first_dot(s) < i {
        assert(s[first_dot(s)] != '.');
    }
}

/// Splits a dotted path into its segments.
pub fn split_path_segments(path: &str) -> (r: Vec<String>)
    ensures
        r.deep_view() == split_path(path@),
{
    let n = path.unicode_len();
    let mut segments: Vec<String> = Vec::new();
    let mut start: usize = 0;
    let mut i: usize = 0;
    assert(path@.subrange(0, n as int) == path@);
    assert(segments.deep_view() =~= Seq::<Seq<char>>::empty());
    assert(split_path(path@) =~= segments.deep_view() + split_path(path@.subrange(0, n as int)));
    while i < n
        invariant
            n == path@.len(),
            start <= i <= n,
            forall|j: int| start <= j < i ==> #[trigger] path@[j] != '.',
            split_path(path@) == segments.deep_view() + split_path(path@.subrange(start as int, n as int)),
        decreases n - i,
    {
        let c = path.get_char(i);
        if c == '.' {
            let seg = path.substring_char(start, i);
            let ghost rest = path@.subrange(start as int, n as int);
            proof {
                assert forall|j: int| 0 <= j < i - start implies #[trigger] rest[j] != '.' by {
                    assert(rest[j] == path@[start + j]);
                }
                assert(rest[i - start] == '.');
                lemma_first_dot_at(rest, i - start);
                assert(rest.subrange(0, i - start) == path@.subrange(start as int, i as int));
                assert(rest.subrange(i - start + 1, rest.len() as int) == path@.subrange(i + 1, n as int));
            }
            let ghost before = segments.deep_view();
            segments.push(String::from_str(seg));
            assert(segments.deep_view() =~= before.push(seg@));
            assert(split_path(rest) =~= seq![path@.subrange(start as int, i as int)] + split_path(path@.subrange(i + 1, n as int)));
            assert(split_path(path@) =~= segments.deep_view() + split_path(path@.subrange(i + 1, n as int)));
            start = i + 1;
        }
        i = i + 1;
    }
    let seg = path.substring_char(start, n);
    let ghost rest = path@.subrange(start as int, n as int);
    proof {
        assert forall|j: int| 0 <= j < rest.len() implies #[trigger] rest[j] != '.' by {
            assert(rest[j] == path@[start + j]);
        }
        lemma_first_dot_at(rest, rest.len() as int);
    }
    let ghost before = segments.deep_view();
    segments.push(String::from_str(seg));
    assert(segments.deep_view() =~= before.push(seg@));
    assert(split_path(rest) =~= seq![rest]);
    assert(split_path(path@) =~= segments.deep_view());
    segments
}

/// The value at a dotted path (`"web.port"`), following table entries.
pub fn get_config_value_by_path<'a>(config: &'a ConfigValue, path: &str) -> (r: Option<&'a ConfigValue>)
    ensures
        match r {
            Some(v) => lookup_path(*config, path@) == Some(*v),
            None => lookup_path(*config, path@) is None,
        },
{
    let keys = split_path_segments(path);
    let ghost kv = keys.deep_view();
    let mut current: &ConfigValue = config;
    let mut i: usize = 0;
    assert(kv.subrange(0, 0) =~= Seq::<Seq<char>>::empty());
    while i < keys.len()
        invariant
            i <= keys@.len(),
            kv == keys.deep_view(),
            kv == split_path(path@),
            lookup_keys(*config, kv.subrange(0, i as int)) == Some(*current),
        decreases keys@.len() - i,
    {
        proof {
            lemma_lookup_push(*config, kv.subrange(0, i as int), kv[i as int]);
            assert(kv.subrange(0, i + 1) =~= kv.subrange(0, i as int).push(kv[i as int]));
            assert(kv[i as int] == keys@[i as int]@);
        }
        match current {
            ConfigValue::Table(t) => {
                match find_entry(t, &keys[i]) {
                    Some(p) => {
                        proof {
                            lemma_entry_index(t@, kv[i as int]);
                        }
                        current = &t[p].1;
                    },
                    None => {
                        proof {
                            lemma_lookup_none(*config, kv, i as int);
                        }
                        return None;
                    },
                }
            },
            _ => {
                proof {
                    lemma_lookup_none(*config, kv, i as int);
                }
                return None;
            },
        }
        i = i + 1;
    }
    assert(kv.subrange(0, kv.len() as int) == kv);
    Some(current)
}

proof fn lemma_lookup_none(v: ConfigValue, keys: Seq<Seq<char>>, i: int)
    requires
        0 <= i < keys.len(),
        lookup_keys(v, keys.subrange(0, i + 1)) is None,
    ensures
        lookup_keys(v, keys) is None,
    decreases keys.len() - i,
{
    if i + 1 < keys.len() {
        lemma_lookup_push(v, keys.subrange(0, i + 1), keys[i + 1]);
        assert(keys.subrange(0, i + 2) =~= keys.subrange(0, i + 1).push(keys[i + 1]));
        lemma_lookup_none(v, keys, i + 1);
    } else {
        assert(keys.subrange(0, i + 1) == keys);
    }
}

/// In a merge of two tables, the entry named `k` is the merge of both
/// entries when both tables have one, else the entry of the table that has it.
proof fn lemma_merged_entry(base: ConfigValue, overlay: ConfigValue, r: ConfigValue, k: Seq<char>)
    requires
        base is Table,
        overlay is Table,
        is_merge(base, overlay, r),
    ensures
        r is Table,
        lookup_step(r, k) is Some <==> (lookup_step(base, k) is Some || lookup_step(overlay, k) is Some),
        lookup_step(base, k) is Some && lookup_step(overlay, k) is Some ==> is_merge(
            lookup_step(base, k)->0,
            lookup_step(overlay, k)->0,
            lookup_step(r, k)->0,
        ),
        lookup_step(base, k) is None && lookup_step(overlay, k) is Some ==> lookup_step(r, k) == lookup_step(overlay, k),
        lookup_step(base, k) is Some && lookup_step(overlay, k) is None ==> lookup_step(r, k) == lookup_step(base, k),
{
    let bt = base->Table_0@;
    let ot = overlay->Table_0@;
    let rt = r->Table_0@;
    assert(has_entry(rt, k) <==> (has_entry(bt, k) || has_entry(ot, k)));
    lemma_entry_index(rt, k);
    if has_entry(rt, k) {
        let i = entry_index(rt, k);
        assert(rt[i].0@ == k);
    }
}

/// A lookup in a merge is a lookup in the overlay where the overlay holds a
/// value that is not a table: the overlay wins on its leaves.
pub proof fn law_overlay_wins(base: ConfigValue, overlay: ConfigValue, r: ConfigValue, keys: Seq<Seq<char>>)
    requires
        is_merge(base, overlay, r),
        lookup_keys(overlay, keys) is Some,
        !(lookup_keys(overlay, keys)->0 is Table),
    ensures
        lookup_keys(r, keys) == lookup_keys(overlay, keys),
    decreases keys.len(),
{
    if keys.len() == 0 {
    } else if base is Table && overlay is Table {
        let k = keys[0];
        lemma_merged_entry(base, overlay, r, k);
        assert(lookup_step(overlay, k) is Some);
        if lookup_step(base, k) is Some {
            law_overlay_wins(lookup_step(base, k)->0, lookup_step(overlay, k)->0, lookup_step(r, k)->0, keys.drop_first());
        }
    }
}

/// Along a path where both sides are tables, once the overlay lacks an
/// entry the merge keeps the base's values: keys the overlay does not set
/// keep their base value.
pub open spec fn overlay_lacks_path(base: ConfigValue, overlay: ConfigValue, keys: Seq<Seq<char>>) -> bool
    decreases keys.len(),
{
    &&& keys.len() > 0
    &&& base is Table
    &&& overlay is Table
    &&& match lookup_step(overlay, keys[0]) {
        None => true,
        Some(o) => match lookup_step(base, keys[0]) {
            Some(b) => overlay_lacks_path(b, o, keys.drop_first()),
            None => false,
        },
    }
}

/// A lookup in a merge is a lookup in the base along a path the overlay
/// does not set.
pub proof fn law_base_kept(base: ConfigValue, overlay: ConfigValue, r: ConfigValue, keys: Seq<Seq<char>>)
    requires
        is_merge(base, overlay, r),
        overlay_lacks_path(base, overlay, keys),
    ensures
        lookup_keys(r, keys) == lookup_keys(base, keys),
    decreases keys.len(),
{
    let k = keys[0];
    lemma_merged_entry(base, overlay, r, k);
    if lookup_step(overlay, k) is Some {
        law_base_kept(lookup_step(base, k)->0, lookup_step(overlay, k)->0, lookup_step(r, k)->0, keys.drop_first());
    }
}

/// Whether every table of `v`, at any depth, names each entry at most once.
pub fn check_config_well_formed(v: &ConfigValue) -> (r: bool)
    ensures
        r == config_well_formed(*v),
    decreases *v, 1int,
{
    match v {
        ConfigValue::Table(t) => check_table_well_formed(t, Ghost(*v)),
        _ => true,
    }
}

fn check_table_well_formed(t: &Vec<(String, ConfigValue)>, Ghost(outer): Ghost<ConfigValue>) -> (r: bool)
    requires
        outer == ConfigValue::Table(*t),
    ensures
        r == config_well_formed(outer),
    decreases outer, 0int,
{
    let ghost ts = t@;
    let mut i: usize = 0;
    while i < t.len()
        invariant
            i <= t@.len(),
            ts == t@,
            outer == ConfigValue::Table(*t),
            distinct_names(ts.subrange(0, i as int)),
            forall|j: int| #![trigger ts[j]] 0 <= j < i ==> config_well_formed(ts[j].1),
        decreases t@.len() - i,
    {
        let mut j: usize = 0;
        while j < i
            invariant
                j <= i < t@.len(),
                ts == t@,
                outer == ConfigValue::Table(*t),
                forall|a: int| 0 <= a < j ==> #[trigger] ts[a].0@ != ts[i as int].0@,
            decreases i - j,
        {
            if t[j].0 == t[i].0 {
                assert(!distinct_names(ts)) by {
                    assert(ts[j as int].0@ == ts[i as int].0@);
                }
                assert(!config_well_formed(outer));
                return false;
            }
            j = j + 1;
        }
        proof {
            assert(decreases_to!(outer => outer->Table_0));
            assert(decreases_to!(outer->Table_0 => outer->Table_0@));
            assert(decreases_to!(outer->Table_0@ => outer->Table_0@[i as int]));
            assert(decreases_to!(outer->Table_0@[i as int] => outer->Table_0@[i as int].1));
        }
        if !check_config_well_formed(&t[i].1) {
            assert(!config_well_formed(outer)) by {
                assert(!config_well_formed(ts[i as int].1));
            }
            return false;
        }
        assert(distinct_names(ts.subrange(0, i + 1))) by {
            let w = ts.subrange(0, i + 1);
            assert forall|a: int, b: int| 0 <= a < w.len() && 0 <= b < w.len() && a != b implies #[trigger] w[a].0@ != #[trigger] w[b].0@ by {
                if a < i && b < i {
                    assert(w[a] == ts.subrange(0, i as int)[a] && w[b] == ts.subrange(0, i as int)[b]);
                } else if a == i {
                    assert(w[b] == ts[b]);
                } else {
                    assert(w[a] == ts[a]);
                }
            }
        }
        i = i + 1;
    }
    assert(ts.subrange(0, i as int) == ts);
    true
}

} // verus!
