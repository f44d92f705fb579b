//! `{{var}}` interpolation: the variable context of a collection, environment and
//! session overrides, and the expansion of placeholders.
use vstd::prelude::*;

use crate::model::{entry_views, Collection, Entry, EntryView, Environment};
use crate::text::{
    chars_of, contains, find, find_in, matches_at, push_char, push_str, same_text, starts_with, string_of, texts, trim,
    trim_range,
};
use crate::varmap::{lemma_pairs_push, pair_keys, pairs_map, VarMap};

verus! {

/// A reference to a `{{var}}` that could not be resolved (absent or empty value).
#[derive(Debug, PartialEq, Eq)]
pub struct MissingVar {
    pub name: String,
    pub secret: bool,
}

/// A missing variable as text.
pub struct MissingView {
    pub name: Seq<char>,
    pub secret: bool,
}

impl View for MissingVar {
    type V = MissingView;

    open spec fn view(&self) -> MissingView {
        MissingView { name: self.name@, secret: self.secret }
    }
}

impl Clone for MissingVar {
    fn clone(&self) -> (r: Self)
        ensures
            r@ == self@,
    {
        MissingVar { name: self.name.clone(), secret: self.secret }
    }
}

/// The views of a sequence of missing variables.
pub open spec fn missing_views(v: Seq<MissingVar>) -> Seq<MissingView> {
    v.map_values(|m: MissingVar| m@)
}

/// The prefix under which `.env` values are referenced.
pub open spec fn process_env_prefix() -> Seq<char> {
    "process.env."@
}

/// `.env` values under their `process.env.` names.
pub open spec fn process_env_vars(pe: Map<Seq<char>, Seq<char>>) -> Map<Seq<char>, Seq<char>> {
    Map::new(
        |k: Seq<char>|
            starts_with(k, process_env_prefix()) && pe.contains_key(
                k.skip(process_env_prefix().len() as int),
            ),
        |k: Seq<char>| pe[k.skip(process_env_prefix().len() as int)],
    )
}

/// `m` with the enabled entries of `es` assigned in order (a later entry wins).
pub open spec fn assign_entries(m: Map<Seq<char>, Seq<char>>, es: Seq<EntryView>) -> Map<
    Seq<char>,
    Seq<char>,
>
    decreases es.len(),
{
    if es.len() == 0 {
        m
    } else {
        let m2 = assign_entries(m, es.drop_last());
        if es.last().enabled {
            m2.insert(es.last().name, es.last().value)
        } else {
            m2
        }
    }
}

/// The value of the last enabled entry named `k`, if any.
pub open spec fn last_enabled(es: Seq<EntryView>, k: Seq<char>) -> Option<Seq<char>>
    decreases es.len(),
{
    if es.len() == 0 {
        None
    } else if es.last().enabled && es.last().name == k {
        Some(es.last().value)
    } else {
        last_enabled(es.drop_last(), k)
    }
}

/// Assigning entries over `m` leaves each key with its last enabled entry's value,
/// and otherwise with what `m` held.
pub proof fn lemma_assign_entries_at(m: Map<Seq<char>, Seq<char>>, es: Seq<EntryView>, k: Seq<char>)
    ensures
        assign_entries(m, es).contains_key(k) == (last_enabled(es, k) is Some || m.contains_key(k)),
        last_enabled(es, k) matches Some(v) ==> assign_entries(m, es)[k] == v,
        last_enabled(es, k) is None ==> assign_entries(m, es)[k] == m[k],
    decreases es.len(),
{
    if es.len() > 0 {
        lemma_assign_entries_at(m, es.drop_last(), k);
    }
}

/// A variable's value by the documented precedence: a session override first, then
/// the selected environment's last enabled entry, then the collection's, then the
/// `.env` value for a `process.env.` name.
pub open spec fn precedence_value(
    collection_vars: Seq<EntryView>,
    process_env: Map<Seq<char>, Seq<char>>,
    environment_vars: Option<Seq<EntryView>>,
    overrides: Map<Seq<char>, Seq<char>>,
    k: Seq<char>,
) -> Option<Seq<char>> {
    if overrides.contains_key(k) {
        Some(overrides[k])
    } else if environment_vars matches Some(ev) && last_enabled(ev, k) is Some {
        last_enabled(environment_vars->0, k)
    } else if last_enabled(collection_vars, k) is Some {
        last_enabled(collection_vars, k)
    } else if process_env_vars(process_env).contains_key(k) {
        Some(process_env_vars(process_env)[k])
    } else {
        None
    }
}

/// Session overrides win over everything, the selected environment overrides the
/// collection vars, and the collection vars override nothing but `.env` values, which
/// live under `process.env.` names.
pub proof fn lemma_variable_precedence(
    collection_vars: Seq<EntryView>,
    process_env: Map<Seq<char>, Seq<char>>,
    environment_vars: Option<Seq<EntryView>>,
    overrides: Map<Seq<char>, Seq<char>>,
    k: Seq<char>,
)
    ensures
        context_vars(collection_vars, process_env, environment_vars, overrides).contains_key(k)
            == precedence_value(collection_vars, process_env, environment_vars, overrides, k) is Some,
        precedence_value(collection_vars, process_env, environment_vars, overrides, k) matches Some(
            v,
        ) ==> context_vars(collection_vars, process_env, environment_vars, overrides)[k] == v,
{
    let base = assign_entries(process_env_vars(process_env), collection_vars);
    lemma_assign_entries_at(process_env_vars(process_env), collection_vars, k);
    match environment_vars {
        Some(ev) => lemma_assign_entries_at(base, ev, k),
        None => {},
    }
}

/// Every `.env` value is reachable as `process.env.<name>` and that name is secret.
pub proof fn lemma_env_file_values_are_secret(
    process_env: Map<Seq<char>, Seq<char>>,
    environment_secrets: Option<Seq<Seq<char>>>,
    name: Seq<char>,
)
    requires
        process_env.contains_key(name),
    ensures
        context_secrets(process_env, environment_secrets).contains(process_env_prefix() + name),
        process_env_vars(process_env).contains_key(process_env_prefix() + name),
        process_env_vars(process_env)[process_env_prefix() + name] == process_env[name],
{
    let key = process_env_prefix() + name;
    assert(key.skip(process_env_prefix().len() as int) =~= name);
    assert(key.take(process_env_prefix().len() as int) =~= process_env_prefix());
}

/// Variable values: collection vars are the base, the selected environment
/// overrides them, and session overrides win over everything; `.env` values live
/// under `process.env.*`.
pub open spec fn context_vars(
    collection_vars: Seq<EntryView>,
    process_env: Map<Seq<char>, Seq<char>>,
    environment_vars: Option<Seq<EntryView>>,
    overrides: Map<Seq<char>, Seq<char>>,
) -> Map<Seq<char>, Seq<char>> {
    let base = assign_entries(process_env_vars(process_env), collection_vars);
    let with_env = match environment_vars {
        Some(ev) => assign_entries(base, ev),
        None => base,
    };
    with_env.union_prefer_right(overrides)
}

/// Secret names: every `process.env.*` name and the environment's `vars:secret`.
pub open spec fn context_secrets(
    process_env: Map<Seq<char>, Seq<char>>,
    environment_secrets: Option<Seq<Seq<char>>>,
) -> Set<Seq<char>> {
    let env_secrets = Set::new(
        |k: Seq<char>|
            starts_with(k, process_env_prefix()) && process_env.contains_key(
                k.skip(process_env_prefix().len() as int),
            ),
    );
    match environment_secrets {
        Some(s) => env_secrets.union(s.to_set()),
        None => env_secrets,
    }
}

/// Resolved variable values plus the set of names marked secret, used to expand
/// `{{var}}` placeholders and report which ones are still missing.
#[derive(Debug)]
pub struct VarContext {
    values: VarMap,
    secrets: Vec<String>,
}

/// The opening and closing placeholder delimiters.
pub open spec fn open_marker() -> Seq<char> {
    seq!['{', '{']
}

pub open spec fn close_marker() -> Seq<char> {
    seq!['}', '}']
}

/// Where the placeholder starting at the beginning of `s` ends: the position of
/// its closing `}}` within `s.skip(2)`.
pub open spec fn placeholder_end(s: Seq<char>) -> Option<int> {
    if starts_with(s, open_marker()) {
        find(s.skip(2), close_marker())
    } else {
        None
    }
}

pub proof fn lemma_placeholder_end(s: Seq<char>)
    ensures
        placeholder_end(s) matches Some(e) ==> 0 <= e && e + 4 <= s.len(),
{
    if starts_with(s, open_marker()) {
        crate::text::lemma_find_some(s.skip(2), close_marker());
    }
}

/// The text of `s` with each `{{name}}` replaced by the value of the trimmed name
/// when that value is present and non-empty; other placeholders stay as written.
pub open spec fn expand_text(vars: Map<Seq<char>, Seq<char>>, s: Seq<char>) -> Seq<char>
    decreases s.len(),
{
    if s.len() == 0 {
        seq![]
    } else {
        proof {
            lemma_placeholder_end(s);
        }
        match placeholder_end(s) {
            Some(e) => {
                let name = trim(s.subrange(2, 2 + e));
                let piece = if vars.contains_key(name) && vars[name].len() > 0 {
                    vars[name]
                } else {
                    s.take(e + 4)
                };
                piece + expand_text(vars, s.skip(e + 4))
            },
            None => seq![s[0]] + expand_text(vars, s.drop_first()),
        }
    }
}

/// The names of the placeholders of `s` that stay unresolved, in order of
/// appearance (with repetitions).
pub open spec fn unresolved(vars: Map<Seq<char>, Seq<char>>, s: Seq<char>) -> Seq<Seq<char>>
    decreases s.len(),
{
    if s.len() == 0 {
        seq![]
    } else {
        proof {
            lemma_placeholder_end(s);
        }
        match placeholder_end(s) {
            Some(e) => {
                let name = trim(s.subrange(2, 2 + e));
                if vars.contains_key(name) && vars[name].len() > 0 {
                    unresolved(vars, s.skip(e + 4))
                } else {
                    seq![name] + unresolved(vars, s.skip(e + 4))
                }
            },
            None => unresolved(vars, s.drop_first()),
        }
    }
}

/// Whether a missing variable of this name is reported as secret.
pub open spec fn is_secret_name(secrets: Set<Seq<char>>, name: Seq<char>) -> bool {
    secrets.contains(name) || starts_with(name, process_env_prefix())
}

/// The report for an unresolved name.
pub open spec fn missing_of(secrets: Set<Seq<char>>, name: Seq<char>) -> MissingView {
    MissingView { name, secret: is_secret_name(secrets, name) }
}

/// `ms` with the reports for `names` added in order, skipping names already listed.
pub open spec fn add_all_missing(
    secrets: Set<Seq<char>>,
    ms: Seq<MissingView>,
    names: Seq<Seq<char>>,
) -> Seq<MissingView>
    decreases names.len(),
{
    if names.len() == 0 {
        ms
    } else {
        add_missing(add_all_missing(secrets, ms, names.drop_last()), missing_of(secrets, names.last()))
    }
}

/// Adding two runs of names one after the other adds their concatenation.
pub proof fn lemma_add_all_missing_concat(
    secrets: Set<Seq<char>>,
    ms: Seq<MissingView>,
    a: Seq<Seq<char>>,
    b: Seq<Seq<char>>,
)
    ensures
        add_all_missing(secrets, ms, a + b) == add_all_missing(
            secrets,
            add_all_missing(secrets, ms, a),
            b,
        ),
    decreases b.len(),
{
    if b.len() == 0 {
        assert(a + b =~= a);
    } else {
        lemma_add_all_missing_concat(secrets, ms, a, b.drop_last());
        assert((a + b).drop_last() =~= a + b.drop_last());
        assert((a + b).last() == b.last());
    }
}

/// `ms` with `v` appended unless a variable of that name is already listed.
pub open spec fn add_missing(ms: Seq<MissingView>, v: MissingView) -> Seq<MissingView> {
    if exists|i: int| 0 <= i < ms.len() && ms[i].name == v.name {
        ms
    } else {
        ms.push(v)
    }
}

/// No two reports name the same variable.
pub open spec fn distinct_names(ms: Seq<MissingView>) -> bool {
    forall|i: int, j: int| 0 <= i < j < ms.len() ==> ms[i].name != ms[j].name
}

/// Some report names `n`.
pub open spec fn reports(ms: Seq<MissingView>, n: Seq<char>) -> bool {
    exists|i: int| 0 <= i < ms.len() && ms[i].name == n
}

/// Adding reports keeps the earlier ones as a prefix; afterwards a name is reported
/// exactly when it was before or is among the added names; and every added report
/// carries the secret flag of its name.
pub proof fn lemma_missing_reports_grow(
    secrets: Set<Seq<char>>,
    ms: Seq<MissingView>,
    names: Seq<Seq<char>>,
)
    ensures
        add_all_missing(secrets, ms, names).len() >= ms.len(),
        add_all_missing(secrets, ms, names).take(ms.len() as int) == ms,
        forall|n: Seq<char>|
            #[trigger] reports(add_all_missing(secrets, ms, names), n) == (reports(ms, n)
                || names.contains(n)),
        forall|i: int|
            ms.len() <= i < add_all_missing(secrets, ms, names).len() ==> #[trigger] add_all_missing(
                secrets,
                ms,
                names,
            )[i] == missing_of(secrets, add_all_missing(secrets, ms, names)[i].name),
    decreases names.len(),
{
    if names.len() > 0 {
        let front = names.drop_last();
        let prev = add_all_missing(secrets, ms, front);
        lemma_missing_reports_grow(secrets, ms, front);
        let v = missing_of(secrets, names.last());
        let r = add_missing(prev, v);
        assert(r == add_all_missing(secrets, ms, names));
        if reports(prev, v.name) {
            assert(r == prev);
        } else {
            assert(r == prev.push(v));
            assert(r.take(ms.len() as int) =~= prev.take(ms.len() as int));
        }
        assert forall|n: Seq<char>| #[trigger] reports(r, n) == (reports(ms, n) || names.contains(n)) by {
            assert(reports(prev, n) == (reports(ms, n) || front.contains(n)));
            if names.contains(n) && !front.contains(n) {
                let k = choose|k: int| 0 <= k < names.len() && names[k] == n;
                if k < front.len() {
                    assert(front[k] == n);
                }
                assert(n == names.last());
                if !reports(prev, v.name) {
                    assert(r[prev.len() as int].name == n);
                }
            }
            if front.contains(n) {
                let k = choose|k: int| 0 <= k < front.len() && front[k] == n;
                assert(names[k] == n);
            }
            if reports(r, n) && !reports(prev, n) {
                let i = choose|i: int| 0 <= i < r.len() && r[i].name == n;
                if i < prev.len() {
                    assert(r[i] == prev[i]);
                }
                assert(names[names.len() - 1] == n);
            }
            if reports(prev, n) {
                let i = choose|i: int| 0 <= i < prev.len() && prev[i].name == n;
                assert(r[i] == prev[i]);
            }
        }
    } else {
        assert(ms.take(ms.len() as int) =~= ms);
    }
}

/// Each missing variable is reported once, however often it is referenced, and every
/// referenced name is reported.
pub proof fn lemma_missing_reported_once(
    secrets: Set<Seq<char>>,
    ms: Seq<MissingView>,
    names: Seq<Seq<char>>,
)
    requires
        distinct_names(ms),
    ensures
        distinct_names(add_all_missing(secrets, ms, names)),
        forall|k: int|
            0 <= k < names.len() ==> exists|i: int|
                0 <= i < add_all_missing(secrets, ms, names).len() && add_all_missing(
                    secrets,
                    ms,
                    names,
                )[i].name == #[trigger] names[k],
    decreases names.len(),
{
    if names.len() > 0 {
        let prev = add_all_missing(secrets, ms, names.drop_last());
        lemma_missing_reported_once(secrets, ms, names.drop_last());
        let v = missing_of(secrets, names.last());
        let r = add_missing(prev, v);
        assert forall|k: int| 0 <= k < names.len() implies exists|i: int|
            0 <= i < r.len() && r[i].name == #[trigger] names[k] by {
            if k < names.len() - 1 {
                assert(names.drop_last()[k] == names[k]);
                let i = choose|i: int| 0 <= i < prev.len() && prev[i].name == names.drop_last()[k];
                assert(r[i] == prev[i]);
            } else if !(exists|i: int| 0 <= i < prev.len() && prev[i].name == v.name) {
                assert(r[prev.len() as int].name == names[k]);
            }
        }
    }
}

/// A placeholder is reported unresolved only when its variable is absent or empty.
pub proof fn lemma_unresolved_are_missing(vars: Map<Seq<char>, Seq<char>>, s: Seq<char>)
    ensures
        forall|k: int|
            0 <= k < unresolved(vars, s).len() ==> !(vars.contains_key(
                #[trigger] unresolved(vars, s)[k],
            ) && vars[unresolved(vars, s)[k]].len() > 0),
    decreases s.len(),
{
    if s.len() > 0 {
        lemma_placeholder_end(s);
        match placeholder_end(s) {
            Some(e) => {
                lemma_unresolved_are_missing(vars, s.skip(e + 4));
                let name = trim(s.subrange(2, 2 + e));
                let rest = unresolved(vars, s.skip(e + 4));
                if vars.contains_key(name) && vars[name].len() > 0 {
                    assert(unresolved(vars, s) == rest);
                } else {
                    assert(unresolved(vars, s) == seq![name] + rest);
                    assert forall|k: int| 0 <= k < unresolved(vars, s).len() implies !(vars.contains_key(
                        #[trigger] unresolved(vars, s)[k],
                    ) && vars[unresolved(vars, s)[k]].len() > 0) by {
                        if k > 0 {
                            assert(unresolved(vars, s)[k] == rest[k - 1]);
                        }
                    }
                }
            },
            None => {
                lemma_unresolved_are_missing(vars, s.drop_first());
                assert(unresolved(vars, s) == unresolved(vars, s.drop_first()));
            },
        }
    }
}

/// Text without `{{` expands to itself and leaves nothing unresolved.
pub proof fn lemma_plain_text_unchanged(vars: Map<Seq<char>, Seq<char>>, s: Seq<char>)
    requires
        !contains(s, open_marker()),
    ensures
        expand_text(vars, s) == s,
        unresolved(vars, s) == Seq::<Seq<char>>::empty(),
    decreases s.len(),
{
    if s.len() > 0 {
        assert(!starts_with(s, open_marker())) by {
            if starts_with(s, open_marker()) {
                assert(s.subrange(0, 2) =~= s.take(2));
                assert(matches_at(s, open_marker(), 0));
            }
        }
        let rest = s.drop_first();
        assert(!contains(rest, open_marker())) by {
            if contains(rest, open_marker()) {
                let i = choose|i: int| matches_at(rest, open_marker(), i);
                assert(s.subrange(i + 1, i + 3) =~= rest.subrange(i, i + 2));
                assert(matches_at(s, open_marker(), i + 1));
            }
        }
        lemma_plain_text_unchanged(vars, rest);
        assert(s =~= seq![s[0]] + rest);
    }
}

/// What `VarContext::expand` reports, given distinct earlier reports: the earlier
/// reports stay as a prefix and the names stay distinct; a name is reported afterwards
/// exactly when it was before or a placeholder of `input` names it and stays
/// unresolved (its value absent or empty); each new report is secret exactly when
/// its name is secret or a `process.env.` name; and text without `{{` comes back as
/// it is.
pub proof fn lemma_expand_reports(
    vars: Map<Seq<char>, Seq<char>>,
    secrets: Set<Seq<char>>,
    before: Seq<MissingView>,
    input: Seq<char>,
)
    requires
        distinct_names(before),
    ensures
        add_all_missing(secrets, before, unresolved(vars, input)).take(before.len() as int)
            == before,
        distinct_names(add_all_missing(secrets, before, unresolved(vars, input))),
        forall|n: Seq<char>|
            #[trigger] reports(add_all_missing(secrets, before, unresolved(vars, input)), n) == (
            reports(before, n) || unresolved(vars, input).contains(n)),
        forall|k: int|
            0 <= k < unresolved(vars, input).len() ==> !(vars.contains_key(
                #[trigger] unresolved(vars, input)[k],
            ) && vars[unresolved(vars, input)[k]].len() > 0),
        forall|i: int|
            before.len() <= i < add_all_missing(secrets, before, unresolved(vars, input)).len()
                ==> (#[trigger] add_all_missing(secrets, before, unresolved(vars, input))[i]).secret
                == is_secret_name(secrets, add_all_missing(secrets, before, unresolved(vars, input))[i].name),
        !contains(input, open_marker()) ==> expand_text(vars, input) == input,
{
    lemma_missing_reports_grow(secrets, before, unresolved(vars, input));
    lemma_missing_reported_once(secrets, before, unresolved(vars, input));
    lemma_unresolved_are_missing(vars, input);
    if !contains(input, open_marker()) {
        lemma_plain_text_unchanged(vars, input);
    }
}

impl VarContext {
    /// The resolved variable values.
    pub closed spec fn vars(self) -> Map<Seq<char>, Seq<char>> {
        self.values@
    }

    /// The names marked secret.
    pub closed spec fn secret_names(self) -> Set<Seq<char>> {
        texts(self.secrets@).to_set()
    }

    /// Build the context: collection vars are the base, the selected environment
    /// overrides them, and session-entered overrides win over everything.
    pub fn build(
        collection: &Collection,
        environment: Option<&Environment>,
        overrides: &VarMap,
    ) -> (r: Self)
        ensures
            r.vars() == context_vars(
                entry_views(collection.vars@),
                collection.process_env@,
                match environment {
                    Some(e) => Some(entry_views(e.vars@)),
                    None => None,
                },
                overrides@,
            ),
            r.secret_names() == context_secrets(
                collection.process_env@,
                match environment {
                    Some(e) => Some(texts(e.secret_vars@)),
                    None => None,
                },
            ),
    {
        let mut values = VarMap::new();
        let mut secrets: Vec<String> = Vec::new();
        let pe = &collection.process_env;
        let n = pe.entry_count();
        let ghost pairs = pe.entries();
        let mut k: usize = 0;
        // `.env` values live in their own `process.env.*` namespace (Bruno-compatible)
        // and are always treated as secret so they stay masked in the missing-var prompt.
        while k < n
            invariant
                0 <= k <= n,
                n == pairs.len(),
                pairs == pe.entries(),
                pair_keys(pairs).no_duplicates(),
                pe@ == pairs_map(pairs),
                values@ == process_env_vars(pairs_map(pairs.take(k as int))),
                texts(secrets@).to_set() == Set::new(
                    |key: Seq<char>|
                        starts_with(key, process_env_prefix()) && pairs_map(
                            pairs.take(k as int),
                        ).contains_key(key.skip(process_env_prefix().len() as int)),
                ),
            decreases n - k,
        {
            let (name, value) = pe.entry(k);
            let mut key = "process.".to_string();
            push_str(&mut key, "env.");
            push_str(&mut key, name.as_str());
            proof {
                lemma_prefix_literal();
                lemma_take_push_pairs(pairs, k as int);
            }
            let ghost before_secrets = texts(secrets@);
            secrets.push(key.clone());
            values.insert(key, value.clone());
            proof {
                let key_v = process_env_prefix() + name@;
                assert(key_v.skip(process_env_prefix().len() as int) =~= name@);
                assert(starts_with(key_v, process_env_prefix())) by {
                    assert(key_v.take(process_env_prefix().len() as int) =~= process_env_prefix());
                }
                lemma_process_env_insert(pairs_map(pairs.take(k as int)), name@, value@);
                assert(texts(secrets@) =~= before_secrets.push(key_v));
                let old_set = Set::new(
                    |key: Seq<char>|
                        starts_with(key, process_env_prefix()) && pairs_map(
                            pairs.take(k as int),
                        ).contains_key(key.skip(process_env_prefix().len() as int)),
                );
                let new_set = Set::new(
                    |key: Seq<char>|
                        starts_with(key, process_env_prefix()) && pairs_map(
                            pairs.take(k + 1),
                        ).contains_key(key.skip(process_env_prefix().len() as int)),
                );
                lemma_to_set_push(before_secrets, key_v);
                assert forall|key: Seq<char>| new_set.contains(key) == old_set.insert(
                    key_v,
                ).contains(key) by {
                    if key == key_v {
                    } else if starts_with(key, process_env_prefix()) {
                        if key.skip(process_env_prefix().len() as int) == name@ {
                            assert(key =~= key.take(process_env_prefix().len() as int) + key.skip(
                                process_env_prefix().len() as int,
                            ));
                        }
                    }
                }
                assert(new_set =~= old_set.insert(key_v));
            }
            k += 1;
        }
        assert(pairs.take(n as int) =~= pairs);
        assert(pe@ == pairs_map(pairs));
        assign_entries_into(&mut values, &collection.vars);
        let ghost base = values@;
        let ghost base_secrets = texts(secrets@).to_set();
        match environment {
            Some(environment) => {
                assign_entries_into(&mut values, &environment.vars);
                let ghost before = texts(secrets@);
                let mut j: usize = 0;
                while j < environment.secret_vars.len()
                    invariant
                        0 <= j <= environment.secret_vars@.len(),
                        texts(secrets@) == before + texts(environment.secret_vars@).take(j as int),
                    decreases environment.secret_vars@.len() - j,
                {
                    let ghost prev = texts(secrets@);
                    let c = environment.secret_vars[j].clone();
                    secrets.push(c);
                    proof {
                        let ev = texts(environment.secret_vars@);
                        assert(texts(secrets@) =~= prev.push(ev[j as int]));
                        assert(ev.take(j + 1) =~= ev.take(j as int).push(ev[j as int]));
                    }
                    j += 1;
                    assert(texts(secrets@) =~= before + texts(environment.secret_vars@).take(
                        j as int,
                    ));
                }
                proof {
                    let ev = texts(environment.secret_vars@);
                    assert(ev.take(ev.len() as int) =~= ev);
                    lemma_to_set_concat(before, ev);
                }
            },
            None => {},
        }
        let m = overrides.entry_count();
        let ghost opairs = overrides.entries();
        let ghost with_env = values@;
        let mut k: usize = 0;
        while k < m
            invariant
                0 <= k <= m,
                m == opairs.len(),
                opairs == overrides.entries(),
                pair_keys(opairs).no_duplicates(),
                overrides@ == pairs_map(opairs),
                values@ == with_env.union_prefer_right(pairs_map(opairs.take(k as int))),
            decreases m - k,
        {
            let (name, value) = overrides.entry(k);
            proof {
                lemma_take_push_pairs(opairs, k as int);
            }
            values.insert(name.clone(), value.clone());
            assert(values@ =~= with_env.union_prefer_right(pairs_map(opairs.take(k + 1))));
            k += 1;
        }
        assert(opairs.take(m as int) =~= opairs);
        VarContext { values, secrets }
    }

    /// Expand `{{var}}` placeholders in `input`, appending any unresolved references to
    /// `missing` (deduplicated by the caller).
    pub fn expand(&self, input: &str, missing: &mut Vec<MissingVar>) -> (r: String)
        ensures
            r@ == expand_text(self.vars(), input@),
            missing_views(final(missing)@) == add_all_missing(
                self.secret_names(),
                missing_views(old(missing)@),
                unresolved(self.vars(), input@),
            ),
    {
        let cs = chars_of(input);
        let ghost s = cs@;
        let mut close: Vec<char> = Vec::new();
        close.push('}');
        close.push('}');
        assert(close@ =~= close_marker());
        let mut output = String::new();
        let ghost mut found: Seq<Seq<char>> = seq![];
        let ghost start_missing = missing_views(missing@);
        let mut index: usize = 0;
        assert(s.skip(0) =~= s);
        while index < cs.len()
            invariant
                0 <= index <= cs.len(),
                s == cs@,
                s == input@,
                close@ == close_marker(),
                expand_text(self.vars(), s) == output@ + expand_text(
                    self.vars(),
                    s.skip(index as int),
                ),
                unresolved(self.vars(), s) == found + unresolved(self.vars(), s.skip(index as int)),
                missing_views(missing@) == add_all_missing(self.secret_names(), start_missing, found),
                start_missing == missing_views(old(missing)@),
            decreases cs.len() - index,
        {
            let ghost rest = s.skip(index as int);
            let ghost out0 = output@;
            if index + 1 < cs.len() && cs[index] == '{' && cs[index + 1] == '{' {
                proof {
                    assert(rest.take(2) =~= open_marker());
                    assert(rest.skip(2) =~= cs@.subrange(index + 2, cs.len() as int));
                }
                match find_in(&cs, index + 2, cs.len(), &close) {
                    Some(end_abs) => {
                        let end = end_abs - (index + 2);
                        let (a, b) = trim_range(&cs, index + 2, end_abs);
                        let name = string_of(&cs, a, b);
                        proof {
                            assert(placeholder_end(rest) == Some(end as int));
                            assert(rest.subrange(2, 2 + end) =~= cs@.subrange(
                                index + 2,
                                end_abs as int,
                            ));
                            assert(rest.skip(end + 4) =~= s.skip(end_abs + 2));
                            assert(rest.take(end + 4) =~= cs@.subrange(index as int, end_abs + 2));
                        }
                        let resolved = match self.values.get(name.as_str()) {
                            Some(value) => {
                                let v = value.as_str();
                                if !text_is_empty(v) {
                                    push_str(&mut output, v);
                                    true
                                } else {
                                    false
                                }
                            },
                            None => false,
                        };
                        assert(resolved == (self.vars().contains_key(name@) && self.vars()[name@].len()
                            > 0));
                        assert(name@ == trim(rest.subrange(2, 2 + end)));
                        if !resolved {
                            let secret = self.contains_secret(name.as_str()) || starts_with_text(
                                name.as_str(),
                                "process.env.",
                            );
                            let mut k = index;
                            while k < end_abs + 2
                                invariant
                                    index <= k <= end_abs + 2 <= cs.len(),
                                    output@ == out0 + cs@.subrange(index as int, k as int),
                                decreases end_abs + 2 - k,
                            {
                                push_char(&mut output, cs[k]);
                                k += 1;
                                assert(output@ =~= out0 + cs@.subrange(index as int, k as int));
                            }
                            let ghost found_before = found;
                            push_missing(missing, MissingVar { name, secret });
                            proof {
                                found = found.push(s.subrange(a as int, b as int));
                                assert(found.drop_last() =~= found_before);
                                assert(unresolved(self.vars(), s) == found + unresolved(
                                    self.vars(),
                                    s.skip(end_abs + 2),
                                )) by {
                                    assert(found_before + unresolved(self.vars(), rest) =~= found
                                        + unresolved(self.vars(), s.skip(end_abs + 2)));
                                }
                            }
                        }
                        proof {
                            assert(expand_text(self.vars(), s) == output@ + expand_text(
                                self.vars(),
                                s.skip(end_abs + 2),
                            )) by {
                                assert(out0 + expand_text(self.vars(), rest) =~= output@
                                    + expand_text(self.vars(), s.skip(end_abs + 2)));
                            }
                        }
                        index = end_abs + 2;
                        continue;
                    },
                    None => {
                        assert(placeholder_end(rest) is None);
                    },
                }
            } else {
                assert(placeholder_end(rest) is None) by {
                    if starts_with(rest, open_marker()) {
                        assert(rest.take(2)[0] == rest[0]);
                        assert(rest.take(2)[1] == rest[1]);
                    }
                }
            }
            push_char(&mut output, cs[index]);
            proof {
                assert(rest.drop_first() =~= s.skip(index + 1));
                assert(out0 + expand_text(self.vars(), rest) =~= output@ + expand_text(
                    self.vars(),
                    s.skip(index + 1),
                ));
            }
            index += 1;
        }
        proof {
            assert(s.skip(index as int) =~= Seq::<char>::empty());
            assert(output@ + Seq::<char>::empty() =~= output@);
            assert(found + Seq::<Seq<char>>::empty() =~= found);
        }
        output
    }

    /// Whether `name` is marked secret.
    fn contains_secret(&self, name: &str) -> (r: bool)
        ensures
            r == self.secret_names().contains(name@),
    {
        let mut i: usize = 0;
        while i < self.secrets.len()
            invariant
                0 <= i <= self.secrets@.len(),
                forall|j: int| 0 <= j < i ==> self.secrets@[j]@ != name@,
            decreases self.secrets@.len() - i,
        {
            if same_text(self.secrets[i].as_str(), name) {
                assert(texts(self.secrets@)[i as int] == name@);
                return true;
            }
            i += 1;
        }
        proof {
            if texts(self.secrets@).contains(name@) {
                let j = choose|j: int|
                    0 <= j < texts(self.secrets@).len() && texts(self.secrets@)[j] == name@;
                assert(self.secrets@[j]@ == name@);
            }
        }
        false
    }
}

/// Whether `s` holds no char.
fn text_is_empty(s: &str) -> (r: bool)
    ensures
        r == (s@.len() == 0),
{
    chars_of(s).len() == 0
}

/// `s` starts with `prefix`.
fn starts_with_text(s: &str, prefix: &str) -> (r: bool)
    ensures
        r == starts_with(s@, prefix@),
{
    let a = chars_of(s);
    let b = chars_of(prefix);
    if b.len() > a.len() {
        return false;
    }
    let r = crate::text::slice_eq(&a, 0, b.len(), &b);
    assert(a@.take(b.len() as int) =~= a@.subrange(0, b.len() as int));
    r
}

/// Record `var` unless a variable of that name is already listed.
fn push_missing(missing: &mut Vec<MissingVar>, var: MissingVar)
    ensures
        missing_views(final(missing)@) == add_missing(missing_views(old(missing)@), var@),
{
    let ghost ms = missing_views(missing@);
    let mut i: usize = 0;
    while i < missing.len()
        invariant
            0 <= i <= missing@.len(),
            ms == missing_views(missing@),
            forall|j: int| 0 <= j < i ==> ms[j].name != var.name@,
        decreases missing@.len() - i,
    {
        if same_text(missing[i].name.as_str(), var.name.as_str()) {
            assert(ms[i as int].name == var.name@);
            return;
        }
        i += 1;
    }
    missing.push(var);
    assert(missing_views(missing@) =~= ms.push(var@));
}

/// `m` with the enabled entries of `es` assigned in order.
fn assign_entries_into(values: &mut VarMap, es: &Vec<Entry>)
    ensures
        final(values)@ == assign_entries(old(values)@, entry_views(es@)),
{
    let ghost start = values@;
    let ghost ev = entry_views(es@);
    let mut k: usize = 0;
    while k < es.len()
        invariant
            0 <= k <= es.len(),
            ev == entry_views(es@),
            values@ == assign_entries(start, ev.take(k as int)),
            start == old(values)@,
        decreases es.len() - k,
    {
        assert(ev.take(k + 1).drop_last() =~= ev.take(k as int));
        assert(ev.take(k + 1).last() == es@[k as int]@);
        if es[k].enabled {
            values.insert(es[k].name.clone(), es[k].value.clone());
        }
        k += 1;
    }
    assert(ev.take(es.len() as int) =~= ev);
}

/// The prefix literal is built from its two halves.
proof fn lemma_prefix_literal()
    ensures
        "process."@ + "env."@ == process_env_prefix(),
{
    reveal_strlit("process.");
    reveal_strlit("env.");
    reveal_strlit("process.env.");
    assert("process."@ + "env."@ =~= "process.env."@);
}

proof fn lemma_take_push_pairs(pairs: Seq<(String, String)>, k: int)
    requires
        pair_keys(pairs).no_duplicates(),
        0 <= k < pairs.len(),
    ensures
        pairs_map(pairs.take(k + 1)) == pairs_map(pairs.take(k)).insert(pairs[k].0@, pairs[k].1@),
{
    assert(pairs.take(k + 1) =~= pairs.take(k).push(pairs[k]));
    assert(pair_keys(pairs.take(k)).no_duplicates()) by {
        assert forall|a: int, b: int|
            0 <= a < pair_keys(pairs.take(k)).len() && 0 <= b < pair_keys(pairs.take(k)).len()
                && a != b implies pair_keys(pairs.take(k))[a] != pair_keys(pairs.take(k))[b] by {
            assert(pair_keys(pairs.take(k))[a] == pair_keys(pairs)[a]);
            assert(pair_keys(pairs.take(k))[b] == pair_keys(pairs)[b]);
        }
    }
    assert(!pair_keys(pairs.take(k)).contains(pairs[k].0@)) by {
        if pair_keys(pairs.take(k)).contains(pairs[k].0@) {
            let j = choose|j: int|
                0 <= j < pair_keys(pairs.take(k)).len() && pair_keys(pairs.take(k))[j]
                    == pairs[k].0@;
            assert(pair_keys(pairs)[j] == pair_keys(pairs)[k]);
        }
    }
    lemma_pairs_push(pairs.take(k), pairs[k]);
}

proof fn lemma_process_env_insert(m: Map<Seq<char>, Seq<char>>, name: Seq<char>, value: Seq<char>)
    ensures
        process_env_vars(m.insert(name, value)) == process_env_vars(m).insert(
            process_env_prefix() + name,
            value,
        ),
{
    let key_v = process_env_prefix() + name;
    assert(key_v.skip(process_env_prefix().len() as int) =~= name);
    assert(key_v.take(process_env_prefix().len() as int) =~= process_env_prefix());
    assert forall|key: Seq<char>| #[trigger]
        process_env_vars(m.insert(name, value)).contains_key(key) == process_env_vars(m).insert(
            key_v,
            value,
        ).contains_key(key) by {
        if starts_with(key, process_env_prefix()) && key.skip(process_env_prefix().len() as int)
            == name {
            assert(key =~= key.take(process_env_prefix().len() as int) + key.skip(
                process_env_prefix().len() as int,
            ));
        }
    }
    assert forall|key: Seq<char>| #[trigger]
        process_env_vars(m.insert(name, value)).contains_key(key) implies process_env_vars(
        m.insert(name, value),
    )[key] == process_env_vars(m).insert(key_v, value)[key] by {
        if key != key_v && key.skip(process_env_prefix().len() as int) == name {
            assert(key =~= key.take(process_env_prefix().len() as int) + key.skip(
                process_env_prefix().len() as int,
            ));
        }
    }
    assert(process_env_vars(m.insert(name, value)) =~= process_env_vars(m).insert(key_v, value));
}

proof fn lemma_to_set_push(s: Seq<Seq<char>>, x: Seq<char>)
    ensures
        s.push(x).to_set() == s.to_set().insert(x),
{
    assert forall|y: Seq<char>| s.push(x).to_set().contains(y) == s.to_set().insert(x).contains(
        y,
    ) by {
        if s.push(x).contains(y) && y != x {
            let j = choose|j: int| 0 <= j < s.push(x).len() && s.push(x)[j] == y;
            assert(s[j] == y);
        }
        if s.contains(y) {
            let j = choose|j: int| 0 <= j < s.len() && s[j] == y;
            assert(s.push(x)[j] == y);
        }
        if y == x {
            assert(s.push(x)[s.len() as int] == x);
        }
    }
    assert(s.push(x).to_set() =~= s.to_set().insert(x));
}

proof fn lemma_to_set_concat(a: Seq<Seq<char>>, b: Seq<Seq<char>>)
    ensures
        (a + b).to_set() == a.to_set().union(b.to_set()),
{
    assert forall|y: Seq<char>| (a + b).to_set().contains(y) == a.to_set().union(
        b.to_set(),
    ).contains(y) by {
        if (a + b).contains(y) {
            let j = choose|j: int| 0 <= j < (a + b).len() && (a + b)[j] == y;
            if j < a.len() {
                assert(a[j] == y);
            } else {
                assert(b[j - a.len()] == y);
            }
        }
        if a.contains(y) {
            let j = choose|j: int| 0 <= j < a.len() && a[j] == y;
            assert((a + b)[j] == y);
        }
        if b.contains(y) {
            let j = choose|j: int| 0 <= j < b.len() && b[j] == y;
            assert((a + b)[a.len() + j] == y);
        }
    }
    assert((a + b).to_set() =~= a.to_set().union(b.to_set()));
}

} // verus!
