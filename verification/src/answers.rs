//! Answering the missing-variable prompt: once every reported variable has a
//! non-empty value among the overrides, preparing the request again finds nothing
//! missing.
use vstd::prelude::*;

use crate::interpolate::{
    add_all_missing, context_vars, lemma_missing_reported_once, lemma_placeholder_end,
    placeholder_end, unresolved, MissingView,
};
use crate::model::{AuthView, BodyModeView, EntryView, RequestView};
use crate::request::{
    apply_entries, auth_refs, body_refs, effective_auth, entry_refs, has_header_spec,
    is_first_header, merged_headers, prepare_refs, set_header_spec, PairView,
};
use crate::text::trim;

verus! {

/// Every answer is a non-empty value.
pub open spec fn nonempty_values(answers: Map<Seq<char>, Seq<char>>) -> bool {
    forall|k: Seq<char>| answers.contains_key(k) ==> #[trigger] answers[k].len() > 0
}

/// Every name of `names` has an answer.
pub open spec fn answered(answers: Map<Seq<char>, Seq<char>>, names: Seq<Seq<char>>) -> bool {
    forall|i: int| 0 <= i < names.len() ==> answers.contains_key(#[trigger] names[i])
}

/// With answers for its unresolved names, a text resolves completely.
proof fn lemma_text_resolves(
    vars: Map<Seq<char>, Seq<char>>,
    answers: Map<Seq<char>, Seq<char>>,
    s: Seq<char>,
)
    requires
        nonempty_values(answers),
        answered(answers, unresolved(vars, s)),
    ensures
        unresolved(vars.union_prefer_right(answers), s) == Seq::<Seq<char>>::empty(),
    decreases s.len(),
{
    let both = vars.union_prefer_right(answers);
    if s.len() > 0 {
        lemma_placeholder_end(s);
        match placeholder_end(s) {
            Some(e) => {
                let name = trim(s.subrange(2, 2 + e));
                let rest = unresolved(vars, s.skip(e + 4));
                if vars.contains_key(name) && vars[name].len() > 0 {
                    assert(unresolved(vars, s) == rest);
                } else {
                    assert(unresolved(vars, s) == seq![name] + rest);
                    assert(unresolved(vars, s)[0] == name);
                    assert forall|i: int| 0 <= i < rest.len() implies answers.contains_key(
                        #[trigger] rest[i],
                    ) by {
                        assert(unresolved(vars, s)[i + 1] == rest[i]);
                    }
                }
                if answers.contains_key(name) {
                    assert(answers[name].len() > 0);
                }
                lemma_text_resolves(vars, answers, s.skip(e + 4));
            },
            None => {
                assert(unresolved(vars, s) == unresolved(vars, s.drop_first()));
                lemma_text_resolves(vars, answers, s.drop_first());
            },
        }
    }
}

/// With answers for their unresolved names, entry values resolve completely.
proof fn lemma_entries_resolve(
    vars: Map<Seq<char>, Seq<char>>,
    answers: Map<Seq<char>, Seq<char>>,
    es: Seq<EntryView>,
)
    requires
        nonempty_values(answers),
        answered(answers, entry_refs(vars, es)),
    ensures
        entry_refs(vars.union_prefer_right(answers), es) == Seq::<Seq<char>>::empty(),
    decreases es.len(),
{
    if es.len() > 0 {
        let front = entry_refs(vars, es.drop_last());
        let last = if es.last().enabled {
            unresolved(vars, es.last().value)
        } else {
            seq![]
        };
        assert(entry_refs(vars, es) == front + last);
        assert forall|i: int| 0 <= i < front.len() implies answers.contains_key(#[trigger] front[i]) by {
            assert((front + last)[i] == front[i]);
        }
        assert forall|i: int| 0 <= i < last.len() implies answers.contains_key(#[trigger] last[i]) by {
            assert((front + last)[front.len() + i] == last[i]);
        }
        lemma_entries_resolve(vars, answers, es.drop_last());
        if es.last().enabled {
            lemma_text_resolves(vars, answers, es.last().value);
        }
        assert(entry_refs(vars.union_prefer_right(answers), es) =~= Seq::<Seq<char>>::empty());
    }
}

/// The names of headers.
pub open spec fn header_names(hs: Seq<PairView>) -> Seq<Seq<char>> {
    hs.map_values(|h: PairView| h.0)
}

proof fn lemma_first_header_same(a: Seq<PairView>, b: Seq<PairView>, name: Seq<char>, i: int)
    requires
        header_names(a) == header_names(b),
    ensures
        is_first_header(a, name, i) == is_first_header(b, name, i),
{
    assert(a.len() == header_names(a).len());
    assert(b.len() == header_names(b).len());
    if 0 <= i < a.len() {
        assert(a[i].0 == header_names(a)[i]);
        assert(b[i].0 == header_names(b)[i]);
        assert forall|j: int| 0 <= j < i implies a[j].0 == b[j].0 by {
            assert(a[j].0 == header_names(a)[j]);
            assert(b[j].0 == header_names(b)[j]);
        }
    }
}

/// Setting a header changes names alike in two header lists with the same names.
proof fn lemma_set_header_names(
    a: Seq<PairView>,
    b: Seq<PairView>,
    name: Seq<char>,
    va: Seq<char>,
    vb: Seq<char>,
)
    requires
        header_names(a) == header_names(b),
    ensures
        header_names(set_header_spec(a, name, va)) == header_names(set_header_spec(b, name, vb)),
{
    assert(a.len() == b.len()) by {
        assert(a.len() == header_names(a).len());
        assert(b.len() == header_names(b).len());
    }
    assert forall|i: int| is_first_header(a, name, i) == is_first_header(b, name, i) by {
        lemma_first_header_same(a, b, name, i);
    }
    if exists|i: int| is_first_header(a, name, i) {
        let i = choose|i: int| is_first_header(a, name, i);
        let j = choose|i: int| is_first_header(b, name, i);
        assert((|k: int| is_first_header(a, name, k)) =~= (|k: int| is_first_header(b, name, k)));
        assert(i == j);
        assert forall|k: int| 0 <= k < a.len() implies set_header_spec(a, name, va)[k].0 == set_header_spec(
            b,
            name,
            vb,
        )[k].0 by {
            assert(a[k].0 == header_names(a)[k]);
            assert(b[k].0 == header_names(b)[k]);
        }
        assert(header_names(set_header_spec(a, name, va)) =~= header_names(
            set_header_spec(b, name, vb),
        ));
    } else {
        assert forall|k: int| 0 <= k < a.len() implies a[k].0 == b[k].0 by {
            assert(a[k].0 == header_names(a)[k]);
            assert(b[k].0 == header_names(b)[k]);
        }
        assert(header_names(set_header_spec(a, name, va)) =~= header_names(
            set_header_spec(b, name, vb),
        ));
    }
}

/// Which headers are set does not depend on the variables: only values are expanded.
proof fn lemma_apply_entries_names(
    v1: Map<Seq<char>, Seq<char>>,
    v2: Map<Seq<char>, Seq<char>>,
    hs: Seq<PairView>,
    es: Seq<EntryView>,
)
    ensures
        header_names(apply_entries(v1, hs, es)) == header_names(apply_entries(v2, hs, es)),
    decreases es.len(),
{
    if es.len() > 0 {
        lemma_apply_entries_names(v1, v2, hs, es.drop_last());
        let e = es.last();
        if e.enabled {
            lemma_set_header_names(
                apply_entries(v1, hs, es.drop_last()),
                apply_entries(v2, hs, es.drop_last()),
                e.name,
                crate::interpolate::expand_text(v1, e.value),
                crate::interpolate::expand_text(v2, e.value),
            );
        }
    }
}

proof fn lemma_has_header_same(a: Seq<PairView>, b: Seq<PairView>, name: Seq<char>)
    requires
        header_names(a) == header_names(b),
    ensures
        has_header_spec(a, name) == has_header_spec(b, name),
{
    assert(a.len() == header_names(a).len());
    assert(b.len() == header_names(b).len());
    if has_header_spec(a, name) {
        let i = choose|i: int| 0 <= i < a.len() && crate::text::eq_ignore_ascii_case(a[i].0, name);
        assert(a[i].0 == header_names(a)[i] && b[i].0 == header_names(b)[i]);
    }
    if has_header_spec(b, name) {
        let i = choose|i: int| 0 <= i < b.len() && crate::text::eq_ignore_ascii_case(b[i].0, name);
        assert(a[i].0 == header_names(a)[i] && b[i].0 == header_names(b)[i]);
    }
}

/// Once every placeholder that preparing a request left unresolved has a non-empty
/// answer, preparing it with the answers added finds no placeholder unresolved.
pub proof fn lemma_answers_resolve_request(
    vars: Map<Seq<char>, Seq<char>>,
    answers: Map<Seq<char>, Seq<char>>,
    request: RequestView,
    collection_headers: Seq<EntryView>,
    collection_auth: AuthView,
)
    requires
        nonempty_values(answers),
        answered(answers, prepare_refs(vars, request, collection_headers, collection_auth)),
    ensures
        prepare_refs(
            vars.union_prefer_right(answers),
            request,
            collection_headers,
            collection_auth,
        ).len() == 0,
{
    let both = vars.union_prefer_right(answers);
    let h1 = merged_headers(vars, collection_headers, request);
    let auth = effective_auth(request.auth, collection_auth);
    let p1 = unresolved(vars, request.url);
    let p2 = entry_refs(vars, request.path_params);
    let p3 = entry_refs(vars, request.query_params);
    let p4 = entry_refs(vars, collection_headers);
    let p5 = entry_refs(vars, request.headers);
    let p6 = auth_refs(vars, h1, auth);
    let p7 = body_refs(vars, request.body_mode, request.body);
    let all = p1 + p2 + p3 + p4 + p5 + p6 + p7;
    assert(prepare_refs(vars, request, collection_headers, collection_auth) == all);
    let o2 = p1.len();
    let o3 = o2 + p2.len();
    let o4 = o3 + p3.len();
    let o5 = o4 + p4.len();
    let o6 = o5 + p5.len();
    let o7 = o6 + p6.len();
    assert forall|i: int| 0 <= i < p1.len() implies answers.contains_key(#[trigger] p1[i]) by {
        assert(all[i] == p1[i]);
    }
    assert forall|i: int| 0 <= i < p2.len() implies answers.contains_key(#[trigger] p2[i]) by {
        assert(all[o2 + i] == p2[i]);
    }
    assert forall|i: int| 0 <= i < p3.len() implies answers.contains_key(#[trigger] p3[i]) by {
        assert(all[o3 + i] == p3[i]);
    }
    assert forall|i: int| 0 <= i < p4.len() implies answers.contains_key(#[trigger] p4[i]) by {
        assert(all[o4 + i] == p4[i]);
    }
    assert forall|i: int| 0 <= i < p5.len() implies answers.contains_key(#[trigger] p5[i]) by {
        assert(all[o5 + i] == p5[i]);
    }
    assert forall|i: int| 0 <= i < p6.len() implies answers.contains_key(#[trigger] p6[i]) by {
        assert(all[o6 + i] == p6[i]);
    }
    assert forall|i: int| 0 <= i < p7.len() implies answers.contains_key(#[trigger] p7[i]) by {
        assert(all[o7 + i] == p7[i]);
    }
    lemma_text_resolves(vars, answers, request.url);
    lemma_entries_resolve(vars, answers, request.path_params);
    lemma_entries_resolve(vars, answers, request.query_params);
    lemma_entries_resolve(vars, answers, collection_headers);
    lemma_entries_resolve(vars, answers, request.headers);
    // Whether the bearer token is used depends on header names only.
    let inner1 = apply_entries(vars, seq![], collection_headers);
    let inner2 = apply_entries(both, seq![], collection_headers);
    lemma_apply_entries_names(vars, both, seq![], collection_headers);
    lemma_apply_entries_names2(vars, both, inner1, inner2, request.headers);
    let h2 = merged_headers(both, collection_headers, request);
    lemma_has_header_same(h1, h2, "authorization"@);
    match auth {
        AuthView::Bearer(t) => {
            if !has_header_spec(h1, "authorization"@) {
                lemma_text_resolves(vars, answers, t);
            }
        },
        _ => {},
    }
    match request.body_mode {
        BodyModeView::NoBody => {},
        _ => lemma_text_resolves(vars, answers, request.body),
    }
}

/// Applying the same entries over lists with the same names gives the same names.
proof fn lemma_apply_entries_names2(
    v1: Map<Seq<char>, Seq<char>>,
    v2: Map<Seq<char>, Seq<char>>,
    a: Seq<PairView>,
    b: Seq<PairView>,
    es: Seq<EntryView>,
)
    requires
        header_names(a) == header_names(b),
    ensures
        header_names(apply_entries(v1, a, es)) == header_names(apply_entries(v2, b, es)),
    decreases es.len(),
{
    if es.len() > 0 {
        lemma_apply_entries_names2(v1, v2, a, b, es.drop_last());
        let e = es.last();
        if e.enabled {
            lemma_set_header_names(
                apply_entries(v1, a, es.drop_last()),
                apply_entries(v2, b, es.drop_last()),
                e.name,
                crate::interpolate::expand_text(v1, e.value),
                crate::interpolate::expand_text(v2, e.value),
            );
        }
    }
}

/// The prompt asks for exactly the missing variables; once each has a non-empty value
/// among the session overrides, preparing the request again reports nothing missing.
pub proof fn lemma_prompt_answers_resolve(
    collection_vars: Seq<EntryView>,
    process_env: Map<Seq<char>, Seq<char>>,
    environment_vars: Option<Seq<EntryView>>,
    overrides: Map<Seq<char>, Seq<char>>,
    answers: Map<Seq<char>, Seq<char>>,
    secrets: Set<Seq<char>>,
    request: RequestView,
    collection_headers: Seq<EntryView>,
    collection_auth: AuthView,
)
    requires
        nonempty_values(answers),
        forall|i: int|
            0 <= i < add_all_missing(
                secrets,
                seq![],
                prepare_refs(
                    context_vars(collection_vars, process_env, environment_vars, overrides),
                    request,
                    collection_headers,
                    collection_auth,
                ),
            ).len() ==> answers.contains_key(
                #[trigger] add_all_missing(
                    secrets,
                    seq![],
                    prepare_refs(
                        context_vars(collection_vars, process_env, environment_vars, overrides),
                        request,
                        collection_headers,
                        collection_auth,
                    ),
                )[i].name,
            ),
    ensures
        add_all_missing(
            secrets,
            seq![],
            prepare_refs(
                context_vars(
                    collection_vars,
                    process_env,
                    environment_vars,
                    overrides.union_prefer_right(answers),
                ),
                request,
                collection_headers,
                collection_auth,
            ),
        ).len() == 0,
{
    let vars = context_vars(collection_vars, process_env, environment_vars, overrides);
    let refs = prepare_refs(vars, request, collection_headers, collection_auth);
    let ms = add_all_missing(secrets, seq![], refs);
    lemma_missing_reported_once(secrets, seq![], refs);
    assert forall|k: int| 0 <= k < refs.len() implies answers.contains_key(#[trigger] refs[k]) by {
        let i = choose|i: int| 0 <= i < ms.len() && ms[i].name == refs[k];
        assert(answers.contains_key(ms[i].name));
    }
    lemma_answers_resolve_request(vars, answers, request, collection_headers, collection_auth);
    let vars2 = context_vars(
        collection_vars,
        process_env,
        environment_vars,
        overrides.union_prefer_right(answers),
    );
    assert(vars2 =~= vars.union_prefer_right(answers));
    let refs2 = prepare_refs(vars2, request, collection_headers, collection_auth);
    assert(refs2.len() == 0);
    assert(add_all_missing(secrets, seq![], refs2) == Seq::<MissingView>::empty());
}

} // verus!
