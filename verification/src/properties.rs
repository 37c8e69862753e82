//! Properties of canonical serialization that span several values.

use vstd::prelude::*;
use crate::canonical::{canonical_json, enclose, join_parts, member_part, lemma_key_position, lemma_render_members_index, null_path_json, render_members, hashing_mask, canonical_body_of, mandate_id_of};
use crate::json::{Json, keys_distinct};
use vstd::multiset::Multiset;
use crate::types::{Agent, Approval, Buyer, Lifecycle, Mandate, agent_json, budget_json, intent_json, mandate_json, policies_json, preferences_json, approval_json, buyer_json, lifecycle_json, money_json, opt_text_json, opt_text_member, signature_json};
use crate::keysort::{insert_by_key, sort_by_key};
use crate::order::{lemma_utf16_less_total, lemma_utf16_not_after_transitive, utf16_less};

verus! {

broadcast use vstd::seq_lib::group_to_multiset_ensures;

/// The keys never decrease along the sequence.
pub open spec fn key_sorted<T>(s: Seq<(Seq<char>, T)>) -> bool {
    forall|i: int, j: int| #![trigger s[i], s[j]] 0 <= i < j < s.len() ==> !utf16_less(s[j].0, s[i].0)
}

/// Any two members of the multiset with the same key are the same member.
pub open spec fn key_determines_member<T>(m: Multiset<(Seq<char>, T)>) -> bool {
    forall|x: (Seq<char>, T), y: (Seq<char>, T)|
        #![trigger m.count(x), m.count(y)]
        m.count(x) > 0 && m.count(y) > 0 && x.0 == y.0 ==> x == y
}

proof fn lemma_insert_by_key<T>(sorted: Seq<(Seq<char>, T)>, e: (Seq<char>, T))
    requires
        key_sorted(sorted),
    ensures
        insert_by_key(sorted, e).to_multiset() == sorted.to_multiset().insert(e),
        key_sorted(insert_by_key(sorted, e)),
    decreases sorted.len(),
{
    if sorted.len() == 0 {
        assert(seq![e] =~= Seq::<(Seq<char>, T)>::empty().push(e));
    } else {
        let last = sorted.last();
        let init = sorted.drop_last();
        assert(sorted =~= init.push(last));
        assert(key_sorted(init)) by {
            assert forall|i: int, j: int| 0 <= i < j < init.len() implies !utf16_less(#[trigger] init[j].0, #[trigger] init[i].0) by {
                assert(init[i] == sorted[i] && init[j] == sorted[j]);
            }
        }
        if utf16_less(e.0, last.0) {
            lemma_insert_by_key(init, e);
            let r = insert_by_key(init, e);
            let out = r.push(last);
            assert(out.to_multiset() =~= sorted.to_multiset().insert(e)) by {
                assert(init.push(last).to_multiset() == init.to_multiset().insert(last));
            }
            assert forall|i: int, j: int| 0 <= i < j < out.len() implies !utf16_less(#[trigger] out[j].0, #[trigger] out[i].0) by {
                if j < r.len() {
                    assert(out[i] == r[i] && out[j] == r[j]);
                } else {
                    let x = r[i];
                    assert(out[i] == x);
                    assert(r.contains(x));
                    assert(r.to_multiset().count(x) > 0);
                    if x == e {
                        lemma_utf16_less_total(e.0, last.0);
                    } else {
                        assert(init.to_multiset().count(x) > 0);
                        assert(init.contains(x));
                        let k = choose|k: int| 0 <= k < init.len() && init[k] == x;
                        assert(sorted[k] == x);
                        assert(sorted[sorted.len() - 1] == last);
                    }
                }
            }
        } else {
            let out = sorted.push(e);
            assert forall|i: int, j: int| 0 <= i < j < out.len() implies !utf16_less(#[trigger] out[j].0, #[trigger] out[i].0) by {
                if j < sorted.len() {
                    assert(out[i] == sorted[i] && out[j] == sorted[j]);
                } else {
                    assert(out[i] == sorted[i]);
                    if i < sorted.len() - 1 {
                        assert(sorted[sorted.len() - 1] == last);
                        lemma_utf16_not_after_transitive(sorted[i].0, last.0, e.0);
                    }
                }
            }
        }
    }
}

/// Sorting by key keeps the members and puts their keys in order.
pub proof fn lemma_sort_by_key<T>(s: Seq<(Seq<char>, T)>)
    ensures
        sort_by_key(s).to_multiset() == s.to_multiset(),
        key_sorted(sort_by_key(s)),
    decreases s.len(),
{
    if s.len() > 0 {
        lemma_sort_by_key(s.drop_last());
        lemma_insert_by_key(sort_by_key(s.drop_last()), s.last());
        assert(s =~= s.drop_last().push(s.last()));
    }
}

/// Two key-sorted sequences with the same members, in which a key
/// determines its member, are the same sequence.
pub proof fn lemma_key_sorted_unique<T>(a: Seq<(Seq<char>, T)>, b: Seq<(Seq<char>, T)>)
    requires
        a.to_multiset() == b.to_multiset(),
        key_sorted(a),
        key_sorted(b),
        key_determines_member(a.to_multiset()),
    ensures
        a == b,
    decreases a.len(),
{
    assert(a.len() == a.to_multiset().len());
    assert(b.len() == b.to_multiset().len());
    if a.len() == 0 {
        assert(a =~= b);
    } else {
        let n = a.len() - 1;
        let x = a.last();
        let y = b.last();
        assert(a[n] == x && b[n] == y);
        assert(a.contains(x));
        assert(b.to_multiset().count(x) > 0);
        assert(b.contains(x));
        let j = choose|j: int| 0 <= j < b.len() && b[j] == x;
        assert(b.to_multiset().count(y) > 0);
        assert(a.contains(y));
        let i = choose|i: int| 0 <= i < a.len() && a[i] == y;
        if i < n {
            assert(!utf16_less(a[n].0, a[i].0));
        }
        if j < n {
            assert(!utf16_less(b[n].0, b[j].0));
        }
        lemma_utf16_less_total(x.0, y.0);
        assert(x.0 == y.0);
        assert(a.to_multiset().count(x) > 0 && a.to_multiset().count(y) > 0);
        assert(x == y);
        let a1 = a.drop_last();
        let b1 = b.drop_last();
        assert(a1 =~= a.remove(n));
        assert(b1 =~= b.remove(n));
        assert(a1.to_multiset() == a.to_multiset().remove(x));
        assert(b1.to_multiset() == b.to_multiset().remove(y));
        assert(key_sorted(a1)) by {
            assert forall|p: int, q: int| 0 <= p < q < a1.len() implies !utf16_less(#[trigger] a1[q].0, #[trigger] a1[p].0) by {
                assert(a1[p] == a[p] && a1[q] == a[q]);
            }
        }
        assert(key_sorted(b1)) by {
            assert forall|p: int, q: int| 0 <= p < q < b1.len() implies !utf16_less(#[trigger] b1[q].0, #[trigger] b1[p].0) by {
                assert(b1[p] == b[p] && b1[q] == b[q]);
            }
        }
        assert(key_determines_member(a1.to_multiset())) by {
            assert forall|u: (Seq<char>, T), w: (Seq<char>, T)|
                a1.to_multiset().count(u) > 0 && a1.to_multiset().count(w) > 0 && u.0 == w.0 implies u == w by {
                assert(a.to_multiset().count(u) > 0);
                assert(a.to_multiset().count(w) > 0);
            }
        }
        lemma_key_sorted_unique(a1, b1);
        assert(a =~= a1.push(x));
        assert(b =~= b1.push(y));
    }
}

/// Mapping every element keeps two sequences with the same members
/// alike.
pub proof fn lemma_map_same_members<A, B>(a: Seq<A>, b: Seq<A>, f: spec_fn(A) -> B)
    requires
        a.to_multiset() == b.to_multiset(),
    ensures
        a.map_values(f).to_multiset() == b.map_values(f).to_multiset(),
    decreases a.len(),
{
    assert(a.len() == a.to_multiset().len());
    assert(b.len() == b.to_multiset().len());
    if a.len() == 0 {
        assert(a.map_values(f) =~= b.map_values(f));
    } else {
        let x = a.last();
        assert(a[a.len() - 1] == x);
        assert(a.contains(x));
        assert(b.to_multiset().count(x) > 0);
        assert(b.contains(x));
        let j = choose|j: int| 0 <= j < b.len() && b[j] == x;
        let a1 = a.drop_last();
        let b1 = b.remove(j);
        assert(a1 =~= a.remove(a.len() - 1));
        assert(a1.to_multiset() == a.to_multiset().remove(x));
        assert(b1.to_multiset() == b.to_multiset().remove(x));
        lemma_map_same_members(a1, b1, f);
        assert(a.map_values(f) =~= a1.map_values(f).push(f(x)));
        assert(b.map_values(f) =~= b1.map_values(f).insert(j, f(x)));
        assert(a1.map_values(f).push(f(x)).to_multiset() == a1.map_values(f).to_multiset().insert(f(x)));
        assert(b1.map_values(f).insert(j, f(x)).to_multiset() == b1.map_values(f).to_multiset().insert(f(x)));
    }
}

/// The rendered members, as a map over the members.
pub proof fn lemma_render_members_map(ms: Seq<(Seq<char>, Json)>)
    ensures
        render_members(ms) == ms.map_values(|p: (Seq<char>, Json)| (p.0, canonical_json(p.1))),
{
    lemma_render_members_index(ms);
    assert(render_members(ms) =~= ms.map_values(|p: (Seq<char>, Json)| (p.0, canonical_json(p.1))));
}

/// The canonical form of an object depends only on its members, each taken
/// as its key and the canonical form of its value, and not on their order:
/// two objects whose members give the same such pairs (with no key twice)
/// serialize to the same result. Nested objects whose members were given in
/// another order thus leave the outer form unchanged too.
pub proof fn canonical_object_depends_on_rendered_members(ms1: Seq<(Seq<char>, Json)>, ms2: Seq<(Seq<char>, Json)>)
    requires
        keys_distinct(ms1),
        ms1.map_values(|p: (Seq<char>, Json)| (p.0, canonical_json(p.1))).to_multiset()
            == ms2.map_values(|p: (Seq<char>, Json)| (p.0, canonical_json(p.1))).to_multiset(),
    ensures
        canonical_json(Json::Object(ms1)) == canonical_json(Json::Object(ms2)),
{
    lemma_render_members_map(ms1);
    lemma_render_members_map(ms2);
    let r1 = render_members(ms1);
    let r2 = render_members(ms2);
    lemma_sort_by_key(r1);
    lemma_sort_by_key(r2);
    lemma_render_members_index(ms1);
    assert(key_determines_member(r1.to_multiset())) by {
        assert forall|x: (Seq<char>, Result<Seq<u8>, Seq<char>>), y: (Seq<char>, Result<Seq<u8>, Seq<char>>)|
            r1.to_multiset().count(x) > 0 && r1.to_multiset().count(y) > 0 && x.0 == y.0 implies x == y by {
            assert(r1.contains(x));
            assert(r1.contains(y));
            let i = choose|i: int| 0 <= i < r1.len() && r1[i] == x;
            let j = choose|j: int| 0 <= j < r1.len() && r1[j] == y;
            assert(r1[i] == (ms1[i].0, canonical_json(ms1[i].1)));
            assert(r1[j] == (ms1[j].0, canonical_json(ms1[j].1)));
            if i != j {
                assert(ms1[i].0 != ms1[j].0);
            }
        }
    }
    assert(key_determines_member(sort_by_key(r1).to_multiset()));
    lemma_key_sorted_unique(sort_by_key(r1), sort_by_key(r2));
}

/// An object's canonical form lists its members, each key beside its
/// value's canonical form, every one exactly once and in the UTF-16 order of
/// their keys.
pub proof fn canonical_object_lists_members_in_key_order(ms: Seq<(Seq<char>, Json)>)
    ensures
        exists|sorted: Seq<(Seq<char>, Result<Seq<u8>, Seq<char>>)>|
            #![trigger key_sorted(sorted)]
            {
                &&& sorted.to_multiset() == ms.map_values(
                    |p: (Seq<char>, Json)| (p.0, canonical_json(p.1)),
                ).to_multiset()
                &&& key_sorted(sorted)
                &&& canonical_json(Json::Object(ms)) == enclose(
                    '{' as u8,
                    join_parts(sorted.map_values(|p: (Seq<char>, Result<Seq<u8>, Seq<char>>)| member_part(p))),
                    '}' as u8,
                )
            },
{
    lemma_render_members_map(ms);
    lemma_sort_by_key(render_members(ms));
}

/// Member order does not matter: two objects with the same members, each
/// key at most once, have the same canonical form.
pub proof fn canonical_object_ignores_member_order(ms1: Seq<(Seq<char>, Json)>, ms2: Seq<(Seq<char>, Json)>)
    requires
        keys_distinct(ms1),
        ms1.to_multiset() == ms2.to_multiset(),
    ensures
        canonical_json(Json::Object(ms1)) == canonical_json(Json::Object(ms2)),
{
    lemma_map_same_members(ms1, ms2, |p: (Seq<char>, Json)| (p.0, canonical_json(p.1)));
    canonical_object_depends_on_rendered_members(ms1, ms2);
}

} // verus!

verus! {

/// Replacing the value at a path inside an object whose member `i` is the
/// first with the path's first key.
proof fn lemma_null_path_at(ms: Seq<(Seq<char>, Json)>, path: Seq<Seq<char>>, i: int)
    requires
        path.len() >= 1,
        0 <= i < ms.len(),
        ms[i].0 == path[0],
        forall|j: int| 0 <= j < i ==> (#[trigger] ms[j]).0 != path[0],
    ensures
        null_path_json(Json::Object(ms), path) == Json::Object(
            ms.update(
                i,
                (ms[i].0, if path.len() == 1 { Json::Null } else { null_path_json(ms[i].1, path.drop_first()) }),
            ),
        ),
{
    lemma_key_position(ms, path[0], i);
}

/// A path whose first key is not among the members changes nothing.
proof fn lemma_null_path_absent(ms: Seq<(Seq<char>, Json)>, path: Seq<Seq<char>>)
    requires
        path.len() >= 1,
        forall|j: int| 0 <= j < ms.len() ==> (#[trigger] ms[j]).0 != path[0],
    ensures
        null_path_json(Json::Object(ms), path) == Json::Object(ms),
{
    lemma_key_position(ms, path[0], ms.len() as int);
}

} // verus!

verus! {

/// The buyer's JSON form with the signature value set to `null`.
pub open spec fn hashed_buyer_json(b: Buyer) -> Json {
    Json::Object(
        seq![
            ("wallet"@, Json::Str(b.wallet@)),
            ("sig"@, Json::Object(seq![("alg"@, Json::Str(b.sig.alg@)), ("value"@, Json::Null)])),
        ],
    )
}

/// The agent's JSON form with the attestation report, and the VCEK chain
/// where there is one, set to `null`.
pub open spec fn hashed_agent_json(a: Agent) -> Json {
    Json::Object(
        seq![
            ("runtime_id"@, Json::Str(a.runtime_id@)),
            (
                "attestation"@,
                Json::Object(
                    seq![("type"@, Json::Str(a.attestation.kind@))] + match a.attestation.vcek_chain {
                        Some(_) => seq![("vcek_chain"@, Json::Null)],
                        None => seq![],
                    } + seq![
                        ("report"@, Json::Null),
                        ("report_data_binding"@, Json::Str(a.attestation.report_data_binding@)),
                    ],
                ),
            ),
        ],
    )
}

/// The approval's JSON form with the approval signature set to `null`.
pub open spec fn hashed_approval_json(a: Approval) -> Json {
    Json::Object(
        match a.human_required_above {
            Some(m) => seq![("human_required_above"@, money_json(m))],
            None => seq![],
        } + seq![("approval_sig"@, Json::Null)],
    )
}

/// The lifecycle's JSON form with the merchant binding set to `null`.
pub open spec fn hashed_lifecycle_json(l: Lifecycle) -> Json {
    Json::Object(
        seq![
            ("created_at"@, Json::Str(l.created_at@)),
            ("expires_at"@, Json::Str(l.expires_at@)),
            ("nonce"@, Json::Str(l.nonce@)),
            ("bound_to_merchant"@, Json::Null),
            ("state"@, Json::Str(l.state@)),
        ],
    )
}

// In the lemmas below each key literal is revealed together with its length
// and first letter, which is what tells the keys apart.

proof fn lemma_hashed_buyer(b: Buyer)
    ensures
        null_path_json(buyer_json(b), seq!["sig"@, "value"@]) == hashed_buyer_json(b),
{
    reveal_strlit("wallet");
    assert("wallet"@.len() == 6 && "wallet"@[0] == 'w');
    reveal_strlit("sig");
    assert("sig"@.len() == 3 && "sig"@[0] == 's');
    reveal_strlit("alg");
    assert("alg"@.len() == 3 && "alg"@[0] == 'a');
    reveal_strlit("value");
    assert("value"@.len() == 5 && "value"@[0] == 'v');
    let path = seq!["sig"@, "value"@];
    let ms = seq![("wallet"@, Json::Str(b.wallet@)), ("sig"@, signature_json(b.sig))];
    assert(ms[0].0 != path[0]);
    lemma_null_path_at(ms, path, 1);
    let inner = seq![("alg"@, Json::Str(b.sig.alg@)), ("value"@, Json::Str(b.sig.value@))];
    assert(path.drop_first() =~= seq!["value"@]);
    assert(inner[0].0 != path.drop_first()[0]);
    lemma_null_path_at(inner, path.drop_first(), 1);
    assert(inner.update(1, ("value"@, Json::Null)) =~= seq![("alg"@, Json::Str(b.sig.alg@)), ("value"@, Json::Null)]);
    assert(ms.update(1, ("sig"@, null_path_json(signature_json(b.sig), path.drop_first()))) =~= seq![
        ("wallet"@, Json::Str(b.wallet@)),
        ("sig"@, Json::Object(seq![("alg"@, Json::Str(b.sig.alg@)), ("value"@, Json::Null)])),
    ]);
}

proof fn lemma_hashed_lifecycle(l: Lifecycle)
    ensures
        null_path_json(lifecycle_json(l), seq!["bound_to_merchant"@]) == hashed_lifecycle_json(l),
{
    reveal_strlit("created_at");
    assert("created_at"@.len() == 10 && "created_at"@[0] == 'c');
    reveal_strlit("expires_at");
    assert("expires_at"@.len() == 10 && "expires_at"@[0] == 'e');
    reveal_strlit("nonce");
    assert("nonce"@.len() == 5 && "nonce"@[0] == 'n');
    reveal_strlit("bound_to_merchant");
    assert("bound_to_merchant"@.len() == 17 && "bound_to_merchant"@[0] == 'b');
    let ms = seq![
        ("created_at"@, Json::Str(l.created_at@)),
        ("expires_at"@, Json::Str(l.expires_at@)),
        ("nonce"@, Json::Str(l.nonce@)),
        ("bound_to_merchant"@, opt_text_json(l.bound_to_merchant)),
        ("state"@, Json::Str(l.state@)),
    ];
    let path = seq!["bound_to_merchant"@];
    assert forall|j: int| 0 <= j < 3 implies (#[trigger] ms[j]).0 != path[0] by {
        if j == 0 {
        } else if j == 1 {
        } else {
        }
    }
    lemma_null_path_at(ms, path, 3);
    assert(ms.update(3, ("bound_to_merchant"@, Json::Null)) =~= seq![
        ("created_at"@, Json::Str(l.created_at@)),
        ("expires_at"@, Json::Str(l.expires_at@)),
        ("nonce"@, Json::Str(l.nonce@)),
        ("bound_to_merchant"@, Json::Null),
        ("state"@, Json::Str(l.state@)),
    ]);
}

proof fn lemma_hashed_approval(a: Approval)
    ensures
        null_path_json(approval_json(a), seq!["approval_sig"@]) == hashed_approval_json(a),
{
    reveal_strlit("human_required_above");
    assert("human_required_above"@.len() == 20 && "human_required_above"@[0] == 'h');
    reveal_strlit("approval_sig");
    assert("approval_sig"@.len() == 12 && "approval_sig"@[0] == 'a');
    let sig = match a.approval_sig {
        Some(s) => signature_json(s),
        None => Json::Null,
    };
    match a.human_required_above {
        Some(m) => {
            let ms = seq![("human_required_above"@, money_json(m))] + seq![("approval_sig"@, sig)];
            assert(ms[0].0 != seq!["approval_sig"@][0]);
            lemma_null_path_at(ms, seq!["approval_sig"@], 1);
            assert(ms.update(1, ("approval_sig"@, Json::Null)) =~= seq![("human_required_above"@, money_json(m))]
                + seq![("approval_sig"@, Json::Null)]);
        },
        None => {
            let ms = Seq::<(Seq<char>, Json)>::empty() + seq![("approval_sig"@, sig)];
            lemma_null_path_at(ms, seq!["approval_sig"@], 0);
            assert(ms.update(0, ("approval_sig"@, Json::Null)) =~= Seq::<(Seq<char>, Json)>::empty()
                + seq![("approval_sig"@, Json::Null)]);
        },
    }
}

proof fn lemma_hashed_agent(a: Agent)
    ensures
        null_path_json(
            null_path_json(agent_json(a), seq!["attestation"@, "report"@]),
            seq!["attestation"@, "vcek_chain"@],
        ) == hashed_agent_json(a),
{
    reveal_strlit("runtime_id");
    assert("runtime_id"@.len() == 10 && "runtime_id"@[0] == 'r');
    reveal_strlit("attestation");
    assert("attestation"@.len() == 11 && "attestation"@[0] == 'a');
    reveal_strlit("type");
    assert("type"@.len() == 4 && "type"@[0] == 't');
    reveal_strlit("vcek_chain");
    assert("vcek_chain"@.len() == 10 && "vcek_chain"@[0] == 'v');
    reveal_strlit("report");
    assert("report"@.len() == 6 && "report"@[0] == 'r');
    reveal_strlit("report_data_binding");
    assert("report_data_binding"@.len() == 19 && "report_data_binding"@[0] == 'r');
    let t = a.attestation;
    let p1 = seq!["attestation"@, "report"@];
    let p2 = seq!["attestation"@, "vcek_chain"@];
    assert(p1.drop_first() =~= seq!["report"@]);
    assert(p2.drop_first() =~= seq!["vcek_chain"@]);
    let head = seq![("type"@, Json::Str(t.kind@))];
    let tail = seq![("report"@, Json::Str(t.report@)), ("report_data_binding"@, Json::Str(t.report_data_binding@))];
    let tail_n = seq![("report"@, Json::Null), ("report_data_binding"@, Json::Str(t.report_data_binding@))];
    let mid = opt_text_member("vcek_chain"@, t.vcek_chain);
    let mid_n = match t.vcek_chain {
        Some(_) => seq![("vcek_chain"@, Json::Null)],
        None => Seq::<(Seq<char>, Json)>::empty(),
    };
    let att = head + mid + tail;
    let att1 = head + mid + tail_n;
    let att2 = head + mid_n + tail_n;
    let outer = seq![("runtime_id"@, Json::Str(a.runtime_id@)), ("attestation"@, Json::Object(att))];
    assert(outer[0].0 != p1[0]);
    lemma_null_path_at(outer, p1, 1);
    let r = mid.len() + 1;
    assert forall|j: int| 0 <= j < r implies (#[trigger] att[j]).0 != p1.drop_first()[0] by {
        if j == 0 {
            assert(att[j] == head[0]);
        } else {
            assert(att[j] == mid[0]);
        }
    }
    lemma_null_path_at(att, p1.drop_first(), r as int);
    assert(att.update(r as int, ("report"@, Json::Null)) =~= att1);
    let outer1 = seq![("runtime_id"@, Json::Str(a.runtime_id@)), ("attestation"@, Json::Object(att1))];
    assert(outer.update(1, ("attestation"@, Json::Object(att1))) =~= outer1);
    assert(outer1[0].0 != p2[0]);
    lemma_null_path_at(outer1, p2, 1);
    match t.vcek_chain {
        Some(_) => {
            assert(att1[0].0 != p2.drop_first()[0]);
            lemma_null_path_at(att1, p2.drop_first(), 1);
            assert(att1.update(1, ("vcek_chain"@, Json::Null)) =~= att2);
        },
        None => {
            assert(att1 =~= att2);
            assert forall|j: int| 0 <= j < att1.len() implies (#[trigger] att1[j]).0 != p2.drop_first()[0] by {
                if j == 0 {
                } else if j == 1 {
                } else {
                }
            }
            lemma_null_path_absent(att1, p2.drop_first());
        },
    }
    let outer2 = seq![("runtime_id"@, Json::Str(a.runtime_id@)), ("attestation"@, Json::Object(att2))];
    assert(outer1.update(1, ("attestation"@, Json::Object(att2))) =~= outer2);
}

} // verus!

verus! {

/// The JSON form of a mandate with every field that hashing and signing
/// leave out set to `null`: the id, the buyer's signature value, the
/// approval signature, the attestation report and VCEK chain (where there
/// is one), and the merchant binding.
pub open spec fn hashed_mandate_json(m: Mandate) -> Json {
    Json::Object(
        seq![
            ("version"@, Json::Str(m.version@)),
            ("id"@, Json::Null),
            ("buyer"@, hashed_buyer_json(m.buyer)),
            ("intent"@, intent_json(m.intent)),
            ("budget"@, budget_json(m.budget)),
        ] + match m.preferences {
            Some(p) => seq![("preferences"@, preferences_json(p))],
            None => seq![],
        } + match m.policies {
            Some(p) => seq![("policies"@, policies_json(p))],
            None => seq![],
        } + seq![("agent"@, hashed_agent_json(m.agent))] + match m.approval {
            Some(a) => seq![("approval"@, hashed_approval_json(a))],
            None => seq![],
        } + seq![("lifecycle"@, hashed_lifecycle_json(m.lifecycle))],
    )
}

/// The members of a JSON object (empty for any other value).
pub open spec fn object_members(j: Json) -> Seq<(Seq<char>, Json)> {
    match j {
        Json::Object(ms) => ms,
        _ => seq![],
    }
}

/// The canonical body serializes the mandate's JSON form with the unhashed
/// fields set to `null`, and nothing else changed.
pub proof fn lemma_hashing_mask_mandate(m: Mandate)
    ensures
        hashing_mask(mandate_json(m)) == hashed_mandate_json(m),
{
    reveal_strlit("version");
    assert("version"@.len() == 7 && "version"@[0] == 'v');
    reveal_strlit("id");
    assert("id"@.len() == 2 && "id"@[0] == 'i');
    reveal_strlit("buyer");
    assert("buyer"@.len() == 5 && "buyer"@[0] == 'b');
    reveal_strlit("intent");
    assert("intent"@.len() == 6 && "intent"@[0] == 'i');
    reveal_strlit("budget");
    assert("budget"@.len() == 6 && "budget"@[0] == 'b');
    reveal_strlit("preferences");
    assert("preferences"@.len() == 11 && "preferences"@[0] == 'p');
    reveal_strlit("policies");
    assert("policies"@.len() == 8 && "policies"@[0] == 'p');
    reveal_strlit("agent");
    assert("agent"@.len() == 5 && "agent"@[0] == 'a');
    reveal_strlit("approval");
    assert("approval"@.len() == 8 && "approval"@[0] == 'a');
    reveal_strlit("lifecycle");
    assert("lifecycle"@.len() == 9 && "lifecycle"@[0] == 'l');
    let ms = object_members(mandate_json(m));
    let np: int = (if m.preferences is Some { 1int } else { 0int }) + (if m.policies is Some { 1int } else { 0int });
    let na: int = if m.approval is Some { 1int } else { 0int };
    let ag = 5 + np;
    let ap = 6 + np;
    let lc = 6 + np + na;
    assert(ms.len() == 7 + np + na);
    assert(ms[0].0 == "version"@);
    assert(ms[1] == ("id"@, Json::Str(m.id@)));
    assert(ms[2] == ("buyer"@, buyer_json(m.buyer)));
    assert(ms[3].0 == "intent"@);
    assert(ms[4].0 == "budget"@);
    assert(m.preferences is Some ==> ms[5].0 == "preferences"@);
    assert(m.policies is Some ==> ms[ag - 1].0 == "policies"@);
    assert(ms[ag] == ("agent"@, agent_json(m.agent)));
    assert(m.approval matches Some(a) ==> ms[ap] == ("approval"@, approval_json(a)));
    assert(ms[lc] == ("lifecycle"@, lifecycle_json(m.lifecycle)));
    assert(mandate_json(m) == Json::Object(ms));
    // id
    let k1 = seq!["id"@];
    assert(ms[0].0 != k1[0]);
    lemma_null_path_at(ms, k1, 1);
    let ms1 = ms.update(1, ("id"@, Json::Null));
    // buyer signature value
    let k2 = seq!["buyer"@, "sig"@, "value"@];
    assert forall|j: int| 0 <= j < 2 implies (#[trigger] ms1[j]).0 != k2[0] by {
        if j == 0 {
            assert(ms1[j] == ms[0]);
        } else {
            assert(ms1[j] == ("id"@, Json::Null));
        }
    }
    lemma_null_path_at(ms1, k2, 2);
    assert(k2.drop_first() =~= seq!["sig"@, "value"@]);
    lemma_hashed_buyer(m.buyer);
    let ms2 = ms1.update(2, ("buyer"@, hashed_buyer_json(m.buyer)));
    assert forall|j: int| 0 <= j < ms.len() implies (#[trigger] ms2[j]).0 == ms[j].0 by {
        if j == 1 {
        } else if j == 2 {
        } else {
        }
    }
    // approval signature
    let k3 = seq!["approval"@, "approval_sig"@];
    let ms3 = match m.approval {
        Some(a) => ms2.update(ap, ("approval"@, hashed_approval_json(a))),
        None => ms2,
    };
    match m.approval {
        Some(a) => {
            assert forall|j: int| 0 <= j < ap implies (#[trigger] ms2[j]).0 != k3[0] by {
                assert(ms2[j].0 == ms[j].0);
                if j < 5 {
                } else if j == ag {
                } else if j == 5 && m.preferences is Some {
                } else {
                    assert(j == ag - 1);
                }
            }
            lemma_null_path_at(ms2, k3, ap);
            assert(k3.drop_first() =~= seq!["approval_sig"@]);
            lemma_hashed_approval(a);
        },
        None => {
            assert forall|j: int| 0 <= j < ms2.len() implies (#[trigger] ms2[j]).0 != k3[0] by {
                assert(ms2[j].0 == ms[j].0);
                if j < 5 {
                } else if j == ag {
                } else if j == lc {
                } else if j == 5 && m.preferences is Some {
                } else {
                    assert(j == ag - 1);
                }
            }
            lemma_null_path_absent(ms2, k3);
        },
    }
    assert(null_path_json(Json::Object(ms2), k3) == Json::Object(ms3));
    assert forall|j: int| 0 <= j < ms.len() implies (#[trigger] ms3[j]).0 == ms[j].0 by {
        assert(ms2[j].0 == ms[j].0);
    }
    // attestation report and VCEK chain
    let k4 = seq!["agent"@, "attestation"@, "report"@];
    let k5 = seq!["agent"@, "attestation"@, "vcek_chain"@];
    assert forall|j: int| 0 <= j < ag implies (#[trigger] ms3[j]).0 != k4[0] by {
        assert(ms3[j].0 == ms[j].0);
        if j < 5 {
        } else if j == 5 && m.preferences is Some {
        } else {
            assert(j == ag - 1);
        }
    }
    assert(ms3[ag] == ms[ag]);
    lemma_null_path_at(ms3, k4, ag);
    assert(k4.drop_first() =~= seq!["attestation"@, "report"@]);
    assert(k5.drop_first() =~= seq!["attestation"@, "vcek_chain"@]);
    let ms4 = ms3.update(ag, ("agent"@, null_path_json(agent_json(m.agent), seq!["attestation"@, "report"@])));
    assert forall|j: int| 0 <= j < ag implies (#[trigger] ms4[j]).0 != k5[0] by {
        assert(ms4[j] == ms3[j]);
        assert(ms3[j].0 != k4[0]);
    }
    lemma_null_path_at(ms4, k5, ag);
    lemma_hashed_agent(m.agent);
    let ms5 = ms4.update(ag, ("agent"@, hashed_agent_json(m.agent)));
    // merchant binding
    let k6 = seq!["lifecycle"@, "bound_to_merchant"@];
    assert forall|j: int| 0 <= j < lc implies (#[trigger] ms5[j]).0 != k6[0] by {
        if j == ag {
        } else {
            assert(ms5[j] == ms3[j]);
            assert(ms3[j].0 == ms[j].0);
            if j < 5 {
            } else if j == ap {
            } else if j == 5 && m.preferences is Some {
            } else {
                assert(j == ag - 1);
            }
        }
    }
    assert(ms5[lc] == ms[lc]);
    lemma_null_path_at(ms5, k6, lc);
    assert(k6.drop_first() =~= seq!["bound_to_merchant"@]);
    lemma_hashed_lifecycle(m.lifecycle);
    let ms6 = ms5.update(lc, ("lifecycle"@, hashed_lifecycle_json(m.lifecycle)));
    assert(hashing_mask(mandate_json(m)) == Json::Object(ms6));
    assert(ms6 =~= object_members(hashed_mandate_json(m)));
}

} // verus!

verus! {

/// The two mandates agree on every field that the canonical body keeps.
/// They may differ in the id, the buyer's signature value, the approval
/// signature, the attestation report, the text of the VCEK chain (not in
/// whether there is one) and the merchant binding.
pub open spec fn same_hashed_fields(a: Mandate, b: Mandate) -> bool {
    &&& a.version@ == b.version@
    &&& a.buyer.wallet@ == b.buyer.wallet@
    &&& a.buyer.sig.alg@ == b.buyer.sig.alg@
    &&& intent_json(a.intent) == intent_json(b.intent)
    &&& budget_json(a.budget) == budget_json(b.budget)
    &&& match (a.preferences, b.preferences) {
        (Some(p), Some(q)) => preferences_json(p) == preferences_json(q),
        (None, None) => true,
        _ => false,
    }
    &&& match (a.policies, b.policies) {
        (Some(p), Some(q)) => policies_json(p) == policies_json(q),
        (None, None) => true,
        _ => false,
    }
    &&& a.agent.runtime_id@ == b.agent.runtime_id@
    &&& a.agent.attestation.kind@ == b.agent.attestation.kind@
    &&& (a.agent.attestation.vcek_chain is Some) == (b.agent.attestation.vcek_chain is Some)
    &&& a.agent.attestation.report_data_binding@ == b.agent.attestation.report_data_binding@
    &&& match (a.approval, b.approval) {
        (Some(x), Some(y)) => match (x.human_required_above, y.human_required_above) {
            (Some(p), Some(q)) => money_json(p) == money_json(q),
            (None, None) => true,
            _ => false,
        },
        (None, None) => true,
        _ => false,
    }
    &&& a.lifecycle.created_at@ == b.lifecycle.created_at@
    &&& a.lifecycle.expires_at@ == b.lifecycle.expires_at@
    &&& a.lifecycle.nonce@ == b.lifecycle.nonce@
    &&& a.lifecycle.state@ == b.lifecycle.state@
}

/// The canonical body, and with it the id, does not depend on the fields
/// that hashing and signing leave out: two mandates that differ only there
/// have the same canonical body and the same id.
pub proof fn canonical_body_ignores_unhashed_fields(a: Mandate, b: Mandate)
    requires
        same_hashed_fields(a, b),
    ensures
        canonical_body_of(a) == canonical_body_of(b),
        mandate_id_of(a) == mandate_id_of(b),
{
    lemma_hashing_mask_mandate(a);
    lemma_hashing_mask_mandate(b);
    assert(hashed_buyer_json(a.buyer) == hashed_buyer_json(b.buyer));
    assert(hashed_agent_json(a.agent) == hashed_agent_json(b.agent));
    assert(hashed_lifecycle_json(a.lifecycle) == hashed_lifecycle_json(b.lifecycle));
    assert(object_members(hashed_mandate_json(a)) =~= object_members(hashed_mandate_json(b)));
}

} // verus!
