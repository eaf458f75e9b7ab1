//! The store: the record log, its resolver, and the operations built on it.
use vstd::prelude::*;

use crate::record::{Entry, EnvelopeError, Environment, EnvironmentRow, Truncate, VariableRecord, opt_view};
use crate::text::{key_less, key_lt, lemma_key_order, normalize_key, substr, upper, window};

verus! {

/// The entry is a record of the pair `(env, key)`.
pub open spec fn same_pair(e: Entry, env: Seq<char>, key: Seq<char>) -> bool {
    e.env == env && e.key == key
}

/// The index of the most recent record of `(env, key)` among the first `n`.
pub open spec fn latest_in(log: Seq<Entry>, n: int, env: Seq<char>, key: Seq<char>) -> Option<int>
    decreases n,
{
    if n <= 0 {
        None
    } else if same_pair(log[n - 1], env, key) {
        Some(n - 1)
    } else {
        latest_in(log, n - 1, env, key)
    }
}

/// The index of the record that resolves `(env, key)`.
pub open spec fn latest(log: Seq<Entry>, env: Seq<char>, key: Seq<char>) -> Option<int> {
    latest_in(log, log.len() as int, env, key)
}

/// The current state of a pair: `None` when it has no record, `Some(None)`
/// when its latest record is a tombstone.
pub open spec fn state(log: Seq<Entry>, env: Seq<char>, key: Seq<char>) -> Option<Option<Seq<char>>> {
    match latest(log, env, key) {
        Some(i) => Some(log[i].value),
        None => None,
    }
}

/// The live value of a pair, if it has one.
pub open spec fn current_value(log: Seq<Entry>, env: Seq<char>, key: Seq<char>) -> Option<Seq<char>> {
    match state(log, env, key) {
        Some(v) => v,
        None => None,
    }
}

/// The pair currently holds a value.
pub open spec fn is_live(log: Seq<Entry>, env: Seq<char>, key: Seq<char>) -> bool {
    current_value(log, env, key) is Some
}

/// The record at `i` is the most recent one of its pair.
pub open spec fn is_latest(log: Seq<Entry>, i: int) -> bool {
    &&& 0 <= i < log.len()
    &&& forall|j: int| i < j < log.len() ==> !same_pair(#[trigger] log[j], log[i].env, log[i].key)
}

/// Some record, live or tombstone, names the environment.
pub open spec fn env_known(log: Seq<Entry>, env: Seq<char>) -> bool {
    exists|i: int| 0 <= i < log.len() && (#[trigger] log[i]).env == env
}

/// What `f` derives, in log order, from the most recent record of each pair
/// among the first `n` records.
pub open spec fn derived(log: Seq<Entry>, n: int, f: spec_fn(Entry) -> Option<Entry>) -> Seq<Entry>
    decreases n,
{
    if n <= 0 {
        Seq::empty()
    } else {
        let rest = derived(log, n - 1, f);
        if is_latest(log, n - 1) && f(log[n - 1]) is Some {
            rest.push(f(log[n - 1]).unwrap())
        } else {
            rest
        }
    }
}

/// Selects the records of one environment, or of all when `env` is `None`.
pub open spec fn history_of(env: Option<Seq<char>>) -> spec_fn(Entry) -> Option<Entry> {
    |e: Entry|
        if env is None || e.env == env.unwrap() {
            Some(e)
        } else {
            None
        }
}

/// A tombstone, stamped `stamp`, for a live record of the environment `env`
/// (any when `None`) and the key `key` (any when `None`).
pub open spec fn tombstone_of(env: Option<Seq<char>>, key: Option<Seq<char>>, stamp: i64) -> spec_fn(
    Entry,
) -> Option<Entry> {
    |e: Entry|
        if e.value is Some && (env is None || e.env == env.unwrap()) && (key is None || e.key
            == key.unwrap()) {
            Some(Entry { env: e.env, key: e.key, value: None, created_at: stamp })
        } else {
            None
        }
}

/// A copy into `tgt`, stamped `stamp`, of a live record of `src`.
pub open spec fn copy_of(src: Seq<char>, tgt: Seq<char>, stamp: i64) -> spec_fn(Entry) -> Option<
    Entry,
> {
    |e: Entry|
        if e.value is Some && e.env == src {
            Some(Entry { env: tgt, key: e.key, value: e.value, created_at: stamp })
        } else {
            None
        }
}

/// The first `n` records without those of `env`.
pub open spec fn without_env(log: Seq<Entry>, n: int, env: Seq<char>) -> Seq<Entry>
    decreases n,
{
    if n <= 0 {
        Seq::empty()
    } else if log[n - 1].env == env {
        without_env(log, n - 1, env)
    } else {
        without_env(log, n - 1, env).push(log[n - 1])
    }
}

/// The most recent record of a pair among the first `n` is the last one that
/// names it.
pub proof fn lemma_latest_in(log: Seq<Entry>, n: int, env: Seq<char>, key: Seq<char>)
    requires
        0 <= n <= log.len(),
    ensures
        match latest_in(log, n, env, key) {
            Some(i) => 0 <= i < n && same_pair(log[i], env, key) && forall|j: int|
                i < j < n ==> !same_pair(#[trigger] log[j], env, key),
            None => forall|j: int| 0 <= j < n ==> !same_pair(#[trigger] log[j], env, key),
        },
    decreases n,
{
    if n > 0 {
        lemma_latest_in(log, n - 1, env, key);
    }
}

/// A record that no later record of its pair follows resolves that pair.
pub proof fn lemma_latest_at(log: Seq<Entry>, i: int)
    requires
        is_latest(log, i),
    ensures
        latest(log, log[i].env, log[i].key) == Some(i),
{
    lemma_latest_in(log, log.len() as int, log[i].env, log[i].key);
}

/// Every derived entry comes from the most recent record of some pair, and
/// the most recent record of every pair that `f` maps gives a derived entry.
pub proof fn lemma_derived(log: Seq<Entry>, n: int, f: spec_fn(Entry) -> Option<Entry>)
    requires
        0 <= n <= log.len(),
    ensures
        forall|k: int|
            0 <= k < derived(log, n, f).len() ==> exists|i: int|
                0 <= i < n && is_latest(log, i) && f(log[i]) == Some(
                    #[trigger] derived(log, n, f)[k],
                ),
        forall|i: int|
            0 <= i < n && #[trigger] is_latest(log, i) && f(log[i]) is Some ==> derived(
                log,
                n,
                f,
            ).contains(f(log[i]).unwrap()),
    decreases n,
{
    if n > 0 {
        lemma_derived(log, n - 1, f);
        let rest = derived(log, n - 1, f);
        let d = derived(log, n, f);
        assert forall|k: int| 0 <= k < d.len() implies exists|i: int|
            0 <= i < n && is_latest(log, i) && f(log[i]) == Some(#[trigger] d[k]) by {
            if k < rest.len() {
                assert(d[k] == rest[k]);
            } else {
                assert(is_latest(log, n - 1) && f(log[n - 1]) == Some(d[k]));
            }
        }
        assert forall|i: int|
            0 <= i < n && #[trigger] is_latest(log, i) && f(log[i]) is Some implies d.contains(
            f(log[i]).unwrap(),
        ) by {
            if i < n - 1 {
                let k = choose|k: int| 0 <= k < rest.len() && rest[k] == f(log[i]).unwrap();
                assert(d[k] == rest[k]);
            } else {
                assert(d[d.len() - 1] == f(log[i]).unwrap());
            }
        }
    }
}

/// For a selector of one pair, what is derived comes from the record that
/// resolves the pair, if any.
pub proof fn lemma_pair_derived(
    log: Seq<Entry>,
    n: int,
    env: Seq<char>,
    key: Seq<char>,
    f: spec_fn(Entry) -> Option<Entry>,
)
    requires
        0 <= n <= log.len(),
        forall|e: Entry| #[trigger] f(e) is Some ==> same_pair(e, env, key),
    ensures
        derived(log, n, f) == match latest(log, env, key) {
            Some(l) => if l < n && f(log[l]) is Some {
                seq![f(log[l]).unwrap()]
            } else {
                Seq::empty()
            },
            None => Seq::empty(),
        },
    decreases n,
{
    lemma_latest_in(log, log.len() as int, env, key);
    if n > 0 {
        lemma_pair_derived(log, n - 1, env, key, f);
        if is_latest(log, n - 1) && f(log[n - 1]) is Some {
            lemma_latest_at(log, n - 1);
        }
        match latest(log, env, key) {
            Some(l) => {
                if l == n - 1 {
                    assert(is_latest(log, n - 1));
                }
            },
            None => {},
        }
    }
}

/// Soft-deleting one pair appends one tombstone when it is live and nothing
/// otherwise.
pub proof fn lemma_pair_tombstones(log: Seq<Entry>, env: Seq<char>, key: Seq<char>, stamp: i64)
    ensures
        is_live(log, env, key) ==> derived(
            log,
            log.len() as int,
            tombstone_of(Some(env), Some(key), stamp),
        ) == seq![Entry { env, key, value: None, created_at: stamp }],
        !is_live(log, env, key) ==> derived(
            log,
            log.len() as int,
            tombstone_of(Some(env), Some(key), stamp),
        ) == Seq::<Entry>::empty(),
{
    let f = tombstone_of(Some(env), Some(key), stamp);
    lemma_pair_derived(log, log.len() as int, env, key, f);
    lemma_latest_in(log, log.len() as int, env, key);
}

/// A listed value as the display setting shows it.
pub open spec fn shown(v: Seq<char>, t: Truncate) -> Seq<char> {
    match t {
        Truncate::Full => v,
        Truncate::Range(start, length) => window(v, start, length),
    }
}

/// `row` shows the live variable of `env` that its key names: the value of
/// the record that resolves the pair, as `t` shows it, and that record's stamp.
pub open spec fn row_of(log: Seq<Entry>, env: Seq<char>, row: EnvironmentRow, t: Truncate) -> bool {
    &&& row.env@ == env
    &&& match latest(log, env, row.key@) {
        Some(i) => log[i].value is Some && row.value@ == shown(log[i].value.unwrap(), t)
            && row.created_at == log[i].created_at,
        None => false,
    }
}

/// `rows` is the live view of `env`: one row for each live key, and no other,
/// ordered by key, descending.
pub open spec fn is_listing(log: Seq<Entry>, env: Seq<char>, rows: Seq<EnvironmentRow>, t: Truncate) -> bool {
    &&& forall|k: int| 0 <= k < rows.len() ==> row_of(log, env, #[trigger] rows[k], t)
    &&& forall|key: Seq<char>|
        #[trigger] is_live(log, env, key) ==> exists|k: int|
            0 <= k < rows.len() && (#[trigger] rows[k]).key@ == key
    &&& forall|k: int, l: int|
        0 <= k < l < rows.len() ==> key_lt(#[trigger] rows[l].key@, #[trigger] rows[k].key@)
}

/// The pair is resolved by a record before position `n`.
pub open spec fn resolved_before(log: Seq<Entry>, env: Seq<char>, key: Seq<char>, n: int) -> bool {
    latest(log, env, key) matches Some(l) && 0 <= l < n
}

/// `rows` is sorted by key, descending.
pub open spec fn descending(rows: Seq<EnvironmentRow>) -> bool {
    forall|k: int, l: int|
        0 <= k < l < rows.len() ==> key_lt(#[trigger] rows[l].key@, #[trigger] rows[k].key@)
}

/// Inserts `row` where it keeps `rows` sorted by key, descending.
fn insert_sorted(rows: &mut Vec<EnvironmentRow>, row: EnvironmentRow) -> (p: usize)
    requires
        descending(old(rows)@),
        forall|k: int| 0 <= k < old(rows)@.len() ==> (#[trigger] old(rows)@[k]).key@ != row.key@,
    ensures
        p <= old(rows)@.len(),
        final(rows)@ == old(rows)@.insert(p as int, row),
        descending(final(rows)@),
{
    proof {
        lemma_key_order();
    }
    let n = rows.len();
    let mut p: usize = 0;
    while p < n && !key_less(&rows[p].key, &row.key)
        invariant
            n == rows@.len(),
            p <= n,
            forall|k: int| 0 <= k < rows@.len() ==> (#[trigger] rows@[k]).key@ != row.key@,
            forall|k: int| 0 <= k < p ==> key_lt(row.key@, #[trigger] rows@[k].key@),
        decreases n - p,
    {
        proof {
            lemma_key_order();
        }
        assert(rows@[p as int].key@ != row.key@);
        p = p + 1;
    }
    let ghost before = rows@;
    rows.insert(p, row);
    assert forall|k: int, l: int| 0 <= k < l < rows@.len() implies key_lt(
        #[trigger] rows@[l].key@,
        #[trigger] rows@[k].key@,
    ) by {
        if l < p {
            assert(rows@[l] == before[l] && rows@[k] == before[k]);
        } else if l == p {
            assert(rows@[k] == before[k]);
        } else if k == p {
            assert(rows@[l] == before[l - 1]);
            if l - 1 > p {
                assert(key_lt(before[l - 1].key@, before[p as int].key@));
            }
        } else if k < p {
            assert(rows@[l] == before[l - 1] && rows@[k] == before[k]);
        } else {
            assert(rows@[l] == before[l - 1] && rows@[k] == before[k - 1]);
        }
    }
    p
}

/// Whether some listed environment is `name`.
fn contains_env(envs: &Vec<Environment>, name: &String) -> (r: bool)
    ensures
        r == exists|k: int| 0 <= k < envs@.len() && (#[trigger] envs@[k]).env@ == name@,
{
    let n = envs.len();
    let mut k: usize = 0;
    while k < n
        invariant
            n == envs@.len(),
            k <= n,
            forall|m: int| 0 <= m < k ==> (#[trigger] envs@[m]).env@ != name@,
        decreases n - k,
    {
        if envs[k].env == *name {
            return true;
        }
        k = k + 1;
    }
    false
}

/// Records of other pairs, appended after the log, leave the resolution of a
/// pair as it was.
pub proof fn lemma_latest_append_other(log: Seq<Entry>, extra: Seq<Entry>, env: Seq<char>, key: Seq<char>)
    requires
        forall|k: int| 0 <= k < extra.len() ==> !same_pair(#[trigger] extra[k], env, key),
    ensures
        latest(log + extra, env, key) == latest(log, env, key),
{
    let all = log + extra;
    lemma_latest_in(all, all.len() as int, env, key);
    lemma_latest_in(log, log.len() as int, env, key);
    match latest(all, env, key) {
        Some(m) => {
            if m >= log.len() {
                assert(all[m] == extra[m - log.len()]);
            }
            assert(all[m] == log[m]);
            assert forall|j: int| m < j < log.len() implies !same_pair(#[trigger] log[j], log[m].env, log[m].key) by {
                assert(all[j] == log[j]);
            }
            lemma_latest_at(log, m);
        },
        None => {
            assert forall|j: int| 0 <= j < log.len() implies !same_pair(#[trigger] log[j], env, key) by {
                assert(all[j] == log[j]);
            }
        },
    }
}

/// Soft-delete is idempotent: once a pair has been soft-deleted, deleting it
/// again appends nothing, so the log and its live view stay as they are.
pub proof fn lemma_soft_delete_idempotent(
    log: Seq<Entry>,
    env: Seq<char>,
    key: Seq<char>,
    first: i64,
    second: i64,
)
    ensures
        ({
            let once = log + derived(log, log.len() as int, tombstone_of(Some(env), Some(key), first));
            &&& !is_live(once, env, key)
            &&& derived(once, once.len() as int, tombstone_of(Some(env), Some(key), second))
                == Seq::<Entry>::empty()
        }),
{
    lemma_pair_tombstones(log, env, key, first);
    let once = log + derived(log, log.len() as int, tombstone_of(Some(env), Some(key), first));
    if is_live(log, env, key) {
        assert(once == log.push(Entry { env, key, value: None, created_at: first }));
        lemma_latest_in(once, once.len() as int, env, key);
    } else {
        assert(once =~= log);
    }
    lemma_pair_tombstones(once, env, key, second);
}

/// Of any run of records appended to one pair, the last one resolves it,
/// however many came before.
pub proof fn lemma_last_append_wins(log: Seq<Entry>, appended: Seq<Entry>, env: Seq<char>, key: Seq<char>)
    requires
        appended.len() > 0,
        forall|k: int| 0 <= k < appended.len() ==> same_pair(#[trigger] appended[k], env, key),
    ensures
        latest(log + appended, env, key) == Some(log.len() + appended.len() - 1),
        state(log + appended, env, key) == Some(appended.last().value),
{
    let all = log + appended;
    assert(all[all.len() - 1] == appended.last());
}

/// After a soft-delete a pair has no live value, so no listing of its
/// environment shows it, while its history shows the tombstone as its most
/// recent record.
pub proof fn lemma_tombstone_invisible(log: Seq<Entry>, env: Seq<char>, key: Seq<char>, stamp: i64, t: Truncate)
    ensures
        ({
            let tomb = Entry { env, key, value: None, created_at: stamp };
            let after = log.push(tomb);
            &&& !is_live(after, env, key)
            &&& state(after, env, key) == Some(Option::<Seq<char>>::None)
            &&& forall|rows: Seq<EnvironmentRow>|
                #[trigger] is_listing(after, env, rows, t) ==> forall|k: int|
                    0 <= k < rows.len() ==> (#[trigger] rows[k]).key@ != key
            &&& derived(after, after.len() as int, history_of(Some(env))).last() == tomb
        }),
{
    let tomb = Entry { env, key, value: None, created_at: stamp };
    let after = log.push(tomb);
    assert(after[after.len() - 1] == tomb);
    assert(is_latest(after, after.len() - 1));
    assert forall|rows: Seq<EnvironmentRow>| #[trigger] is_listing(after, env, rows, t) implies forall|k: int|
        0 <= k < rows.len() ==> (#[trigger] rows[k]).key@ != key by {
        assert forall|k: int| 0 <= k < rows.len() implies (#[trigger] rows[k]).key@ != key by {
            assert(row_of(after, env, rows[k], t));
        }
    }
}

/// The records left after erasing `env` name other environments only.
pub proof fn lemma_without_env(log: Seq<Entry>, n: int, env: Seq<char>)
    requires
        0 <= n <= log.len(),
    ensures
        forall|k: int|
            0 <= k < without_env(log, n, env).len() ==> (#[trigger] without_env(log, n, env)[k]).env
                != env,
    decreases n,
{
    if n > 0 {
        lemma_without_env(log, n - 1, env);
    }
}

/// Erasure is total: once `env` is erased no record names it, no pair of it
/// resolves and its listing is empty; a record written to it afterwards
/// resolves as in an environment that never existed.
pub proof fn lemma_erasure_total(log: Seq<Entry>, env: Seq<char>, t: Truncate)
    ensures
        ({
            let dropped = without_env(log, log.len() as int, env);
            &&& !env_known(dropped, env)
            &&& forall|key: Seq<char>| #[trigger] state(dropped, env, key) is None
            &&& forall|rows: Seq<EnvironmentRow>| #[trigger] is_listing(dropped, env, rows, t) ==> rows.len() == 0
            &&& forall|e: Entry, key: Seq<char>|
                e.env == env ==> #[trigger] state(dropped.push(e), env, key) == if key == e.key {
                    Some(e.value)
                } else {
                    None
                }
        }),
{
    let dropped = without_env(log, log.len() as int, env);
    lemma_without_env(log, log.len() as int, env);
    assert forall|key: Seq<char>| #[trigger] state(dropped, env, key) is None by {
        lemma_latest_in(dropped, dropped.len() as int, env, key);
    }
    assert forall|rows: Seq<EnvironmentRow>| #[trigger] is_listing(dropped, env, rows, t) implies rows.len() == 0 by {
        if rows.len() > 0 {
            assert(row_of(dropped, env, rows[0], t));
            assert(state(dropped, env, rows[0].key@) is None);
        }
    }
    assert forall|e: Entry, key: Seq<char>| e.env == env implies #[trigger] state(dropped.push(e), env, key)
        == if key == e.key {
        Some(e.value)
    } else {
        None
    } by {
        let after = dropped.push(e);
        assert(after[after.len() - 1] == e);
        if key != e.key {
            assert(state(dropped, env, key) is None);
            lemma_latest_append_other(dropped, seq![e], env, key);
            assert(dropped + seq![e] == after);
        }
    }
}

/// Duplicate fidelity: after copying `src` into `tgt`, every key live in `src`
/// resolves in `tgt` to its value in `src`, in a record stamped `stamp`; every
/// other key of `tgt` resolves as before.
pub proof fn lemma_duplicate_fidelity(log: Seq<Entry>, src: Seq<char>, tgt: Seq<char>, stamp: i64)
    ensures
        ({
            let after = log + derived(log, log.len() as int, copy_of(src, tgt, stamp));
            &&& forall|key: Seq<char>|
                #[trigger] is_live(log, src, key) ==> (latest(after, tgt, key) matches Some(i)
                    && after[i].value == Some(current_value(log, src, key).unwrap())
                    && after[i].created_at == stamp)
            &&& forall|key: Seq<char>|
                !is_live(log, src, key) ==> #[trigger] state(after, tgt, key) == state(log, tgt, key)
        }),
{
    let n = log.len() as int;
    let f = copy_of(src, tgt, stamp);
    let c = derived(log, n, f);
    let after = log + c;
    lemma_derived(log, n, f);
    // A copied record of `key` comes from the record that resolves `key` in `src`.
    assert forall|m: int| 0 <= m < c.len() implies
        latest(log, src, (#[trigger] c[m]).key) matches Some(l) && f(log[l]) == Some(c[m]) by {
        let i = choose|i: int| 0 <= i < n && is_latest(log, i) && f(log[i]) == Some(c[m]);
        lemma_latest_at(log, i);
    }
    assert forall|key: Seq<char>| #[trigger] is_live(log, src, key) implies (latest(after, tgt, key) matches Some(i)
        && after[i].value == Some(current_value(log, src, key).unwrap()) && after[i].created_at == stamp) by {
        lemma_latest_in(log, n, src, key);
        let l = latest(log, src, key).unwrap();
        assert(is_latest(log, l));
        let k = choose|k: int| 0 <= k < c.len() && c[k] == f(log[l]).unwrap();
        assert(after[n + k] == c[k]);
        lemma_latest_in(after, after.len() as int, tgt, key);
        let m = latest(after, tgt, key).unwrap();
        assert(m >= n + k);
        assert(after[m] == c[m - n]);
    }
    assert forall|key: Seq<char>| !is_live(log, src, key) implies #[trigger] state(after, tgt, key) == state(log, tgt, key) by {
        assert forall|k: int| 0 <= k < c.len() implies !same_pair(#[trigger] c[k], tgt, key) by {
            if same_pair(c[k], tgt, key) {
                lemma_latest_in(log, n, src, key);
            }
        }
        lemma_latest_append_other(log, c, tgt, key);
        lemma_latest_in(log, n, tgt, key);
        if let Some(i) = latest(log, tgt, key) {
            assert(after[i] == log[i]);
        }
    }
}

/// The pair `(env, key)` is one that `env_sel` and `key_sel` select (`None`
/// selects any).
pub open spec fn selects(env_sel: Option<Seq<char>>, key_sel: Option<Seq<char>>, env: Seq<char>, key: Seq<char>) -> bool {
    (env_sel is None || env == env_sel.unwrap()) && (key_sel is None || key == key_sel.unwrap())
}

/// A bulk soft-delete leaves no selected pair live and every other pair
/// resolving as before.
pub proof fn lemma_soft_delete_hides(
    log: Seq<Entry>,
    env_sel: Option<Seq<char>>,
    key_sel: Option<Seq<char>>,
    stamp: i64,
)
    ensures
        ({
            let after = log + derived(log, log.len() as int, tombstone_of(env_sel, key_sel, stamp));
            &&& forall|env: Seq<char>, key: Seq<char>|
                selects(env_sel, key_sel, env, key) ==> !#[trigger] is_live(after, env, key)
            &&& forall|env: Seq<char>, key: Seq<char>|
                !selects(env_sel, key_sel, env, key) ==> #[trigger] state(after, env, key) == state(
                    log,
                    env,
                    key,
                )
        }),
{
    let n = log.len() as int;
    let f = tombstone_of(env_sel, key_sel, stamp);
    let c = derived(log, n, f);
    let after = log + c;
    lemma_derived(log, n, f);
    assert forall|m: int| 0 <= m < c.len() implies selects(env_sel, key_sel, (#[trigger] c[m]).env, c[m].key)
        && c[m].value is None && is_live(log, c[m].env, c[m].key) by {
        let i = choose|i: int| 0 <= i < n && is_latest(log, i) && f(log[i]) == Some(c[m]);
        lemma_latest_at(log, i);
    }
    assert forall|env: Seq<char>, key: Seq<char>|
        !is_live(log, env, key) || !selects(env_sel, key_sel, env, key) implies #[trigger] state(after, env, key)
        == state(log, env, key) by {
        assert forall|k: int| 0 <= k < c.len() implies !same_pair(#[trigger] c[k], env, key) by {}
        lemma_latest_append_other(log, c, env, key);
        lemma_latest_in(log, n, env, key);
        if let Some(i) = latest(log, env, key) {
            assert(after[i] == log[i]);
        }
    }
    assert forall|env: Seq<char>, key: Seq<char>| selects(env_sel, key_sel, env, key) implies !#[trigger] is_live(
        after,
        env,
        key,
    ) by {
        if is_live(log, env, key) {
            lemma_latest_in(log, n, env, key);
            let l = latest(log, env, key).unwrap();
            assert(is_latest(log, l));
            let k = choose|k: int| 0 <= k < c.len() && c[k] == f(log[l]).unwrap();
            assert(after[n + k] == c[k]);
            lemma_latest_in(after, after.len() as int, env, key);
            let m = latest(after, env, key).unwrap();
            assert(m >= n + k);
            assert(after[m] == c[m - n]);
        } else {
            assert(state(after, env, key) == state(log, env, key));
        }
    }
}

/// An in-memory record log. Every record carries a stamp; stamps never
/// decrease along the log, and the clock is the largest stamp handed out.
pub struct EnvelopeDb {
    records: Vec<VariableRecord>,
    clock: i64,
}

impl EnvelopeDb {
    /// The records of the log, oldest first.
    pub closed spec fn log(&self) -> Seq<Entry> {
        self.records@.map_values(|r: VariableRecord| r@)
    }

    /// The largest stamp handed out so far.
    pub closed spec fn clock(&self) -> i64 {
        self.clock
    }

    /// Stamps never decrease along the log and none exceeds the clock.
    pub closed spec fn wf(&self) -> bool {
        &&& forall|i: int, j: int|
            0 <= i < j < self.log().len() ==> #[trigger] self.log()[i].created_at
                <= #[trigger] self.log()[j].created_at
        &&& forall|i: int| 0 <= i < self.log().len() ==> #[trigger] self.log()[i].created_at <= self.clock
    }

    /// The stamp that a record written at time `now` receives: never below an
    /// earlier stamp.
    pub open spec fn stamp(&self, now: i64) -> i64 {
        if now > self.clock() {
            now
        } else {
            self.clock()
        }
    }

    /// In a well-formed log the record that resolves a pair carries the
    /// largest stamp of the pair's records.
    pub proof fn lemma_resolves_newest(&self, env: Seq<char>, key: Seq<char>)
        requires
            self.wf(),
        ensures
            latest(self.log(), env, key) matches Some(i) ==> forall|j: int|
                0 <= j < self.log().len() && same_pair(#[trigger] self.log()[j], env, key)
                    ==> self.log()[j].created_at <= self.log()[i].created_at,
    {
        lemma_latest_in(self.log(), self.log().len() as int, env, key);
    }

    /// An empty store.
    pub fn new() -> (r: Self)
        ensures
            r.wf(),
            r.log() == Seq::<Entry>::empty(),
    {
        let r = EnvelopeDb { records: Vec::new(), clock: i64::MIN };
        assert(r.log() =~= Seq::<Entry>::empty());
        r
    }

    /// The records of the log, oldest first.
    pub fn records(&self) -> (r: &Vec<VariableRecord>)
        ensures
            r@.map_values(|r: VariableRecord| r@) == self.log(),
    {
        &self.records
    }

    /// The stamp that a record written at time `now` receives.
    pub fn next_stamp(&self, now: i64) -> (r: i64)
        ensures
            r == self.stamp(now),
    {
        if now > self.clock {
            now
        } else {
            self.clock
        }
    }

    fn push_record(&mut self, rec: VariableRecord)
        requires
            old(self).wf(),
            rec.created_at >= old(self).clock(),
        ensures
            final(self).wf(),
            final(self).log() == old(self).log().push(rec@),
            final(self).clock() == rec.created_at,
    {
        let ghost before = self.log();
        let stamp = rec.created_at;
        self.records.push(rec);
        self.clock = stamp;
        assert(self.log() =~= before.push(rec@));
    }

    /// Appends one record, stamped at `now` or, if that is earlier, at the
    /// latest stamp handed out.
    pub fn append(&mut self, env: String, key: String, value: Option<String>, now: i64)
        requires
            old(self).wf(),
        ensures
            final(self).wf(),
            final(self).log() == old(self).log().push(
                Entry { env: env@, key: key@, value: opt_view(value), created_at: old(self).stamp(now) },
            ),
            final(self).clock() == old(self).stamp(now),
    {
        let stamp = self.next_stamp(now);
        self.push_record(VariableRecord { env, key, value, created_at: stamp });
    }

    /// Sets `key` (normalized to upper case) to `var` in `env`.
    pub fn insert(&mut self, env: &str, key: &str, var: &str, now: i64)
        requires
            old(self).wf(),
        ensures
            final(self).wf(),
            final(self).log() == old(self).log().push(
                Entry {
                    env: env@,
                    key: upper(key@),
                    value: Some(var@),
                    created_at: old(self).stamp(now),
                },
            ),
            final(self).clock() == old(self).stamp(now),
    {
        let key = normalize_key(key);
        self.append(String::from_str(env), key, Some(String::from_str(var)), now);
    }

    /// Whether the record at `i` is the most recent one of its pair.
    fn is_latest_at(&self, i: usize) -> (r: bool)
        requires
            i < self.log().len(),
        ensures
            r == is_latest(self.log(), i as int),
    {
        let n = self.records.len();
        let rec = &self.records[i];
        let mut j: usize = i + 1;
        while j < n
            invariant
                n == self.log().len(),
                i < j <= n,
                rec@ == self.log()[i as int],
                forall|m: int| i < m < j ==> !same_pair(#[trigger] self.log()[m], rec@.env, rec@.key),
            decreases n - j,
        {
            let other = &self.records[j];
            if other.env == rec.env && other.key == rec.key {
                assert(self.log()[j as int] == other@);
                return false;
            }
            j = j + 1;
        }
        true
    }

    /// The most recent record, live or tombstone, of every pair of `env` (of
    /// every environment when `None`), in log order.
    fn latest_records(&self, env: Option<String>) -> (r: Vec<VariableRecord>)
        ensures
            r@.map_values(|r: VariableRecord| r@) == derived(
                self.log(),
                self.log().len() as int,
                history_of(opt_view(env)),
            ),
    {
        let ghost f = history_of(opt_view(env));
        let n = self.records.len();
        let mut out: Vec<VariableRecord> = Vec::new();
        let mut i: usize = 0;
        while i < n
            invariant
                n == self.log().len(),
                i <= n,
                f == history_of(opt_view(env)),
                out@.map_values(|r: VariableRecord| r@) == derived(self.log(), i as int, f),
            decreases n - i,
        {
            let rec = &self.records[i];
            let selected = match &env {
                Some(e) => rec.env == *e,
                None => true,
            };
            let ghost before = out@;
            if selected && self.is_latest_at(i) {
                out.push(rec.copy());
                assert(out@.map_values(|r: VariableRecord| r@) =~= before.map_values(
                    |r: VariableRecord| r@,
                ).push(self.log()[i as int]));
            }
            i = i + 1;
        }
        out
    }

    /// The most recent record, live or tombstone, of every pair, in log order.
    pub fn get_all_env_vars(&self) -> (r: Vec<VariableRecord>)
        ensures
            r@.map_values(|r: VariableRecord| r@) == derived(
                self.log(),
                self.log().len() as int,
                history_of(None),
            ),
    {
        self.latest_records(None)
    }

    /// The most recent record, live or tombstone, of every pair of `env`, in
    /// log order.
    pub fn get_all_history(&self, env: &str) -> (r: Vec<VariableRecord>)
        ensures
            r@.map_values(|r: VariableRecord| r@) == derived(
                self.log(),
                self.log().len() as int,
                history_of(Some(env@)),
            ),
    {
        self.latest_records(Some(String::from_str(env)))
    }

    /// Succeeds when some record, live or tombstone, names `env`.
    pub fn check_env_exists(&self, env: &str) -> (r: Result<(), EnvelopeError>)
        ensures
            r is Ok <==> env_known(self.log(), env@),
            r matches Err(e) ==> e matches EnvelopeError::EnvironmentNotFound(name) && name@ == env@,
    {
        let name = String::from_str(env);
        let n = self.records.len();
        let mut i: usize = 0;
        while i < n
            invariant
                n == self.log().len(),
                i <= n,
                name@ == env@,
                forall|j: int| 0 <= j < i ==> (#[trigger] self.log()[j]).env != env@,
            decreases n - i,
        {
            if self.records[i].env == name {
                assert(self.log()[i as int].env == env@);
                return Ok(());
            }
            i = i + 1;
        }
        Err(EnvelopeError::EnvironmentNotFound(name))
    }

    /// Tombstones, stamped `stamp`, for the live pairs that `env` and `key`
    /// select (`None` selects any), in log order.
    fn tombstone_plan(&self, env: &Option<String>, key: &Option<String>, stamp: i64) -> (r: Vec<
        VariableRecord,
    >)
        ensures
            r@.map_values(|r: VariableRecord| r@) == derived(
                self.log(),
                self.log().len() as int,
                tombstone_of(opt_view(*env), opt_view(*key), stamp),
            ),
            forall|k: int| 0 <= k < r@.len() ==> (#[trigger] r@[k]).created_at == stamp,
    {
        let ghost f = tombstone_of(opt_view(*env), opt_view(*key), stamp);
        let n = self.records.len();
        let mut out: Vec<VariableRecord> = Vec::new();
        let mut i: usize = 0;
        while i < n
            invariant
                n == self.log().len(),
                i <= n,
                f == tombstone_of(opt_view(*env), opt_view(*key), stamp),
                out@.map_values(|r: VariableRecord| r@) == derived(self.log(), i as int, f),
                forall|k: int| 0 <= k < out@.len() ==> (#[trigger] out@[k]).created_at == stamp,
            decreases n - i,
        {
            let rec = &self.records[i];
            let env_ok = match env {
                Some(e) => rec.env == *e,
                None => true,
            };
            let key_ok = match key {
                Some(k) => rec.key == *k,
                None => true,
            };
            let ghost before = out@;
            if rec.value.is_some() && env_ok && key_ok && self.is_latest_at(i) {
                let t = VariableRecord {
                    env: rec.env.clone(),
                    key: rec.key.clone(),
                    value: None,
                    created_at: stamp,
                };
                out.push(t);
                assert(out@.map_values(|r: VariableRecord| r@) =~= before.map_values(
                    |r: VariableRecord| r@,
                ).push(t@));
            }
            i = i + 1;
        }
        out
    }

    /// Appends one tombstone for each live pair that `env` and `key` select.
    fn soft_delete(&mut self, env: Option<String>, key: Option<String>, now: i64)
        requires
            old(self).wf(),
        ensures
            final(self).wf(),
            final(self).log() == old(self).log() + derived(
                old(self).log(),
                old(self).log().len() as int,
                tombstone_of(opt_view(env), opt_view(key), old(self).stamp(now)),
            ),
            final(self).clock() >= old(self).clock(),
    {
        let stamp = self.next_stamp(now);
        let plan = self.tombstone_plan(&env, &key, stamp);
        self.append_all(plan, stamp);
    }

    /// Soft-deletes every live variable of `env`.
    pub fn delete_env(&mut self, env: &str, now: i64)
        requires
            old(self).wf(),
        ensures
            final(self).wf(),
            final(self).log() == old(self).log() + derived(
                old(self).log(),
                old(self).log().len() as int,
                tombstone_of(Some(env@), None, old(self).stamp(now)),
            ),
            forall|key: Seq<char>| !#[trigger] is_live(final(self).log(), env@, key),
            forall|other: Seq<char>, key: Seq<char>|
                other != env@ ==> #[trigger] state(final(self).log(), other, key) == state(
                    old(self).log(),
                    other,
                    key,
                ),
    {
        proof {
            lemma_soft_delete_hides(self.log(), Some(env@), None, self.stamp(now));
            assert forall|key: Seq<char>| selects(Some(env@), None, env@, key) by {}
        }
        self.soft_delete(Some(String::from_str(env)), None, now);
    }

    /// Soft-deletes the variable `key` (normalized to upper case) in every
    /// environment where it is live.
    pub fn delete_var_all(&mut self, key: &str, now: i64)
        requires
            old(self).wf(),
        ensures
            final(self).wf(),
            final(self).log() == old(self).log() + derived(
                old(self).log(),
                old(self).log().len() as int,
                tombstone_of(None, Some(upper(key@)), old(self).stamp(now)),
            ),
            forall|env: Seq<char>| !#[trigger] is_live(final(self).log(), env, upper(key@)),
            forall|env: Seq<char>, other: Seq<char>|
                other != upper(key@) ==> #[trigger] state(final(self).log(), env, other) == state(
                    old(self).log(),
                    env,
                    other,
                ),
    {
        proof {
            lemma_soft_delete_hides(self.log(), None, Some(upper(key@)), self.stamp(now));
            assert forall|env: Seq<char>| selects(None, Some(upper(key@)), env, upper(key@)) by {}
        }
        self.soft_delete(None, Some(normalize_key(key)), now);
    }

    /// Soft-deletes the variable `key` (normalized to upper case) of `env`:
    /// one tombstone if it is live, nothing otherwise.
    pub fn delete_var_for_env(&mut self, env: &str, key: &str, now: i64)
        requires
            old(self).wf(),
        ensures
            final(self).wf(),
            is_live(old(self).log(), env@, upper(key@)) ==> final(self).log() == old(self).log().push(
                Entry { env: env@, key: upper(key@), value: None, created_at: old(self).stamp(now) },
            ),
            !is_live(old(self).log(), env@, upper(key@)) ==> final(self).log() == old(self).log(),
    {
        proof {
            lemma_pair_tombstones(self.log(), env@, upper(key@), self.stamp(now));
        }
        self.soft_delete(Some(String::from_str(env)), Some(normalize_key(key)), now);
        proof {
            if !is_live(old(self).log(), env@, upper(key@)) {
                assert(final(self).log() =~= old(self).log());
            }
        }
    }

    /// Copies every live variable of `src_env` into `tgt_env`, as new records
    /// stamped `now` (or the latest stamp, if that is later).
    pub fn duplicate(&mut self, src_env: &str, tgt_env: &str, now: i64)
        requires
            old(self).wf(),
        ensures
            final(self).wf(),
            final(self).log() == old(self).log() + derived(
                old(self).log(),
                old(self).log().len() as int,
                copy_of(src_env@, tgt_env@, old(self).stamp(now)),
            ),
            forall|key: Seq<char>|
                #[trigger] is_live(old(self).log(), src_env@, key) ==> current_value(
                    final(self).log(),
                    tgt_env@,
                    key,
                ) == current_value(old(self).log(), src_env@, key),
            forall|key: Seq<char>|
                !is_live(old(self).log(), src_env@, key) ==> #[trigger] state(
                    final(self).log(),
                    tgt_env@,
                    key,
                ) == state(old(self).log(), tgt_env@, key),
    {
        proof {
            lemma_duplicate_fidelity(self.log(), src_env@, tgt_env@, self.stamp(now));
        }
        let stamp = self.next_stamp(now);
        let src = String::from_str(src_env);
        let tgt = String::from_str(tgt_env);
        let ghost f = copy_of(src_env@, tgt_env@, stamp);
        let n = self.records.len();
        let mut plan: Vec<VariableRecord> = Vec::new();
        let mut i: usize = 0;
        while i < n
            invariant
                n == self.log().len(),
                i <= n,
                src@ == src_env@,
                tgt@ == tgt_env@,
                f == copy_of(src_env@, tgt_env@, stamp),
                plan@.map_values(|r: VariableRecord| r@) == derived(self.log(), i as int, f),
                forall|k: int| 0 <= k < plan@.len() ==> (#[trigger] plan@[k]).created_at == stamp,
            decreases n - i,
        {
            let rec = &self.records[i];
            let ghost before = plan@;
            if rec.env == src && self.is_latest_at(i) {
                match &rec.value {
                    Some(v) => {
                        let c = VariableRecord {
                            env: tgt.clone(),
                            key: rec.key.clone(),
                            value: Some(v.clone()),
                            created_at: stamp,
                        };
                        plan.push(c);
                        assert(plan@.map_values(|r: VariableRecord| r@) =~= before.map_values(
                            |r: VariableRecord| r@,
                        ).push(c@));
                    },
                    None => {},
                }
            }
            i = i + 1;
        }
        self.append_all(plan, stamp);
    }

    /// Erases every record of `env`, tombstones included.
    pub fn drop_env(&mut self, env: &str)
        requires
            old(self).wf(),
        ensures
            final(self).wf(),
            final(self).log() == without_env(old(self).log(), old(self).log().len() as int, env@),
            final(self).clock() == old(self).clock(),
            !env_known(final(self).log(), env@),
            forall|key: Seq<char>| #[trigger] state(final(self).log(), env@, key) is None,
    {
        proof {
            lemma_erasure_total(self.log(), env@, Truncate::Full);
        }
        let name = String::from_str(env);
        let ghost log = self.log();
        let n = self.records.len();
        let mut kept: Vec<VariableRecord> = Vec::new();
        let mut i: usize = 0;
        while i < n
            invariant
                n == log.len(),
                log == self.log(),
                self.wf(),
                i <= n,
                name@ == env@,
                kept@.map_values(|r: VariableRecord| r@) == without_env(log, i as int, env@),
                forall|k: int| 0 <= k < kept@.len() ==> (#[trigger] kept@[k]).created_at <= self.clock,
                forall|k: int, j: int|
                    0 <= k < kept@.len() && i <= j < n ==> (#[trigger] kept@[k]).created_at
                        <= #[trigger] log[j].created_at,
                forall|k: int, l: int|
                    0 <= k < l < kept@.len() ==> (#[trigger] kept@[k]).created_at
                        <= #[trigger] kept@[l].created_at,
            decreases n - i,
        {
            let rec = &self.records[i];
            let ghost before = kept@;
            assert(log[i as int] == rec@);
            if rec.env != name {
                let c = rec.copy();
                assert(c.created_at == log[i as int].created_at);
                assert(log[i as int].created_at <= self.clock);
                assert forall|j: int| i < j < n implies log[i as int].created_at
                    <= #[trigger] log[j].created_at by {
                    assert(self.log()[i as int].created_at <= self.log()[j].created_at);
                }
                kept.push(c);
                assert(kept@[kept@.len() - 1] == c);
                assert(kept@.map_values(|r: VariableRecord| r@) =~= before.map_values(
                    |r: VariableRecord| r@,
                ).push(c@));
            }
            i = i + 1;
        }
        self.records = kept;
    }

    /// The live variables of `env`, ordered by key, descending, with each
    /// value shown as `truncate` says.
    pub fn list_all_var_in_env(&self, env: &str, truncate: Truncate) -> (r: Vec<EnvironmentRow>)
        ensures
            is_listing(self.log(), env@, r@, truncate),
    {
        let ghost log = self.log();
        let name = String::from_str(env);
        let n = self.records.len();
        let mut rows: Vec<EnvironmentRow> = Vec::new();
        let mut i: usize = 0;
        while i < n
            invariant
                n == log.len(),
                log == self.log(),
                i <= n,
                name@ == env@,
                forall|k: int|
                    0 <= k < rows@.len() ==> row_of(log, env@, #[trigger] rows@[k], truncate)
                        && resolved_before(log, env@, rows@[k].key@, i as int),
                forall|key: Seq<char>|
                    #[trigger] is_live(log, env@, key) && resolved_before(log, env@, key, i as int)
                        ==> exists|k: int| 0 <= k < rows@.len() && (#[trigger] rows@[k]).key@ == key,
                descending(rows@),
            decreases n - i,
        {
            let rec = &self.records[i];
            assert(log[i as int] == rec@);
            proof {
                lemma_latest_in(log, n as int, env@, rec@.key);
            }
            let ghost before = rows@;
            if rec.env == name && self.is_latest_at(i) {
                proof {
                    lemma_latest_at(log, i as int);
                }
                match &rec.value {
                    Some(v) => {
                        let value = match truncate {
                            Truncate::Full => v.clone(),
                            Truncate::Range(start, length) => substr(v, start, length),
                        };
                        let row = EnvironmentRow {
                            env: rec.env.clone(),
                            key: rec.key.clone(),
                            value,
                            created_at: rec.created_at,
                        };
                        assert forall|k: int| 0 <= k < before.len() implies (
                        #[trigger] before[k]).key@ != row.key@ by {
                            assert(resolved_before(log, env@, before[k].key@, i as int));
                        }
                        let p = insert_sorted(&mut rows, row);
                        assert forall|k: int| 0 <= k < rows@.len() implies row_of(
                            log,
                            env@,
                            #[trigger] rows@[k],
                            truncate,
                        ) && resolved_before(log, env@, rows@[k].key@, i + 1) by {
                            if k < p {
                                assert(rows@[k] == before[k]);
                            } else if k > p {
                                assert(rows@[k] == before[k - 1]);
                            }
                        }
                        assert forall|key: Seq<char>|
                            #[trigger] is_live(log, env@, key) && resolved_before(
                                log,
                                env@,
                                key,
                                i + 1,
                            ) implies exists|k: int|
                            0 <= k < rows@.len() && (#[trigger] rows@[k]).key@ == key by {
                            if resolved_before(log, env@, key, i as int) {
                                let k0 = choose|k0: int|
                                    0 <= k0 < before.len() && (#[trigger] before[k0]).key@ == key;
                                if k0 < p {
                                    assert(rows@[k0] == before[k0]);
                                } else {
                                    assert(rows@[k0 + 1] == before[k0]);
                                }
                            } else {
                                lemma_latest_in(log, n as int, env@, key);
                                assert(rows@[p as int] == row);
                                assert(row.key@ == key);
                            }
                        }
                    },
                    None => {},
                }
            }
            proof {
                assert forall|key: Seq<char>|
                    #[trigger] is_live(log, env@, key) && resolved_before(log, env@, key, i + 1)
                        implies exists|k: int|
                    0 <= k < rows@.len() && (#[trigger] rows@[k]).key@ == key by {
                    if !resolved_before(log, env@, key, i as int) {
                        lemma_latest_in(log, n as int, env@, key);
                        assert(is_latest(log, i as int));
                    }
                }
            }
            i = i + 1;
        }
        proof {
            assert forall|key: Seq<char>| #[trigger] is_live(log, env@, key) implies exists|k: int|
                0 <= k < rows@.len() && (#[trigger] rows@[k]).key@ == key by {
                lemma_latest_in(log, n as int, env@, key);
                assert(resolved_before(log, env@, key, n as int));
            }
        }
        rows
    }

    /// The live variables of `env`, ordered by key, descending.
    pub fn list_var_in_env(&self, env: &str) -> (r: Vec<EnvironmentRow>)
        ensures
            is_listing(self.log(), env@, r@, Truncate::Full),
    {
        self.list_all_var_in_env(env, Truncate::Full)
    }

    /// Every environment that some record, live or tombstone, names, each
    /// once, in the order of first appearance.
    pub fn list_environments(&self) -> (r: Vec<Environment>)
        ensures
            forall|k: int| 0 <= k < r@.len() ==> env_known(self.log(), #[trigger] r@[k].env@),
            forall|env: Seq<char>|
                #[trigger] env_known(self.log(), env) ==> exists|k: int|
                    0 <= k < r@.len() && (#[trigger] r@[k]).env@ == env,
            forall|k: int, l: int|
                0 <= k < l < r@.len() ==> (#[trigger] r@[k]).env@ != (#[trigger] r@[l]).env@,
    {
        let ghost log = self.log();
        let n = self.records.len();
        let mut out: Vec<Environment> = Vec::new();
        let mut i: usize = 0;
        while i < n
            invariant
                n == log.len(),
                log == self.log(),
                i <= n,
                forall|k: int| 0 <= k < out@.len() ==> env_known(log, #[trigger] out@[k].env@),
                forall|j: int|
                    0 <= j < i ==> exists|k: int|
                        0 <= k < out@.len() && (#[trigger] out@[k]).env@ == (#[trigger] log[j]).env,
                forall|k: int, l: int|
                    0 <= k < l < out@.len() ==> (#[trigger] out@[k]).env@ != (#[trigger] out@[l]).env@,
            decreases n - i,
        {
            let rec = &self.records[i];
            assert(log[i as int] == rec@);
            let ghost before = out@;
            if !contains_env(&out, &rec.env) {
                out.push(Environment { env: rec.env.clone() });
                assert(out@[out@.len() - 1].env@ == log[i as int].env);
                assert forall|j: int| 0 <= j < i implies exists|k: int|
                    0 <= k < out@.len() && (#[trigger] out@[k]).env@ == (#[trigger] log[j]).env by {
                    let k0 = choose|k0: int|
                        0 <= k0 < before.len() && (#[trigger] before[k0]).env@ == log[j].env;
                    assert(out@[k0] == before[k0]);
                }
            }
            i = i + 1;
        }
        proof {
            assert forall|env: Seq<char>| #[trigger] env_known(log, env) implies exists|k: int|
                0 <= k < out@.len() && (#[trigger] out@[k]).env@ == env by {
                let j = choose|j: int| 0 <= j < log.len() && (#[trigger] log[j]).env == env;
                assert(exists|k: int|
                    0 <= k < out@.len() && (#[trigger] out@[k]).env@ == (#[trigger] log[j]).env);
            }
        }
        out
    }

    /// Appends the records of `plan`, all stamped `stamp`, in order.
    fn append_all(&mut self, plan: Vec<VariableRecord>, stamp: i64)
        requires
            old(self).wf(),
            stamp >= old(self).clock(),
            forall|k: int| 0 <= k < plan@.len() ==> (#[trigger] plan@[k]).created_at == stamp,
        ensures
            final(self).wf(),
            final(self).log() == old(self).log() + plan@.map_values(|r: VariableRecord| r@),
            final(self).clock() >= old(self).clock(),
            plan@.len() > 0 ==> final(self).clock() == stamp,
            plan@.len() == 0 ==> final(self).clock() == old(self).clock(),
    {
        let ghost before = self.log();
        let ghost start = self.clock();
        let n = plan.len();
        let mut k: usize = 0;
        while k < n
            invariant
                self.wf(),
                n == plan@.len(),
                k <= n,
                forall|m: int| 0 <= m < n ==> (#[trigger] plan@[m]).created_at == stamp,
                stamp >= self.clock(),
                k > 0 ==> self.clock() == stamp,
                k == 0 ==> self.clock() == start,
                start <= stamp,
                self.log() == before + plan@.subrange(0, k as int).map_values(
                    |r: VariableRecord| r@,
                ),
            decreases n - k,
        {
            let rec = plan[k].copy();
            self.push_record(rec);
            assert(plan@.subrange(0, k + 1).map_values(|r: VariableRecord| r@) =~= plan@.subrange(
                0,
                k as int,
            ).map_values(|r: VariableRecord| r@).push(rec@));
            k = k + 1;
        }
        assert(plan@.subrange(0, n as int) =~= plan@);
    }
}

} // verus!
