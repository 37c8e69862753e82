//! When canonical serialization refuses a value: exactly when the value
//! holds a number with a fraction or an exponent.

use vstd::prelude::*;
use crate::canonical::{
    canonical_body_of, canonical_json, join_parts, lemma_render_items_index, lemma_render_members_index, member_part,
    render_items, render_members,
};
use crate::json::Json;
use crate::keysort::sort_by_key;
use crate::properties::{
    hashed_agent_json, hashed_approval_json, hashed_buyer_json, hashed_lifecycle_json,
    hashed_mandate_json, lemma_hashing_mask_mandate, lemma_sort_by_key,
};
use crate::types::{
    Budget, Mandate, Money, Policies, Preferences, budget_json, intent_json, money_json,
    opt_text_member, policies_json, preferences_json, strings_json, vault_grant_json,
};

verus! {

broadcast use vstd::seq_lib::group_to_multiset_ensures;

/// The value holds, at any depth, a number with a fraction or an exponent.
pub open spec fn has_float(j: Json) -> bool
    decreases j,
{
    match j {
        Json::Float(_) => true,
        Json::Array(items) => items_have_float(items),
        Json::Object(members) => members_have_float(members),
        _ => false,
    }
}

/// Some element holds a number with a fraction or an exponent.
pub open spec fn items_have_float(s: Seq<Json>) -> bool
    decreases s,
{
    if s.len() == 0 {
        false
    } else {
        has_float(s[0]) || items_have_float(s.drop_first())
    }
}

/// Some member's value holds a number with a fraction or an exponent.
pub open spec fn members_have_float(s: Seq<(Seq<char>, Json)>) -> bool
    decreases s,
{
    if s.len() == 0 {
        false
    } else {
        has_float(s[0].1) || members_have_float(s.drop_first())
    }
}

proof fn lemma_items_have_float(s: Seq<Json>)
    ensures
        items_have_float(s) <==> exists|i: int| 0 <= i < s.len() && #[trigger] has_float(s[i]),
    decreases s.len(),
{
    if s.len() > 0 {
        lemma_items_have_float(s.drop_first());
        if has_float(s[0]) {
            assert(0 <= 0 < s.len() && has_float(s[0]));
        }
        if items_have_float(s.drop_first()) {
            let i = choose|i: int| 0 <= i < s.drop_first().len() && #[trigger] has_float(s.drop_first()[i]);
            assert(has_float(s[i + 1]));
        }
        if exists|i: int| 0 <= i < s.len() && #[trigger] has_float(s[i]) {
            let i = choose|i: int| 0 <= i < s.len() && #[trigger] has_float(s[i]);
            if i > 0 {
                assert(has_float(s.drop_first()[i - 1]));
            }
        }
    }
}

proof fn lemma_members_have_float(s: Seq<(Seq<char>, Json)>)
    ensures
        members_have_float(s) <==> exists|i: int| 0 <= i < s.len() && #[trigger] has_float(s[i].1),
    decreases s.len(),
{
    if s.len() > 0 {
        lemma_members_have_float(s.drop_first());
        if has_float(s[0].1) {
            assert(0 <= 0 < s.len() && has_float(s[0].1));
        }
        if members_have_float(s.drop_first()) {
            let i = choose|i: int| 0 <= i < s.drop_first().len() && #[trigger] has_float(s.drop_first()[i].1);
            assert(has_float(s[i + 1].1));
        }
        if exists|i: int| 0 <= i < s.len() && #[trigger] has_float(s[i].1) {
            let i = choose|i: int| 0 <= i < s.len() && #[trigger] has_float(s[i].1);
            if i > 0 {
                assert(has_float(s.drop_first()[i - 1].1));
            }
        }
    }
}

/// Joining fails exactly when one of the parts failed.
pub proof fn lemma_join_parts_ok(parts: Seq<Result<Seq<u8>, Seq<char>>>)
    ensures
        join_parts(parts) is Ok <==> forall|i: int| 0 <= i < parts.len() ==> #[trigger] parts[i] is Ok,
    decreases parts.len(),
{
    if parts.len() > 0 {
        let init = parts.drop_last();
        lemma_join_parts_ok(init);
        if forall|i: int| 0 <= i < parts.len() ==> #[trigger] parts[i] is Ok {
            assert forall|i: int| 0 <= i < init.len() implies #[trigger] init[i] is Ok by {
                assert(init[i] == parts[i]);
            }
            assert(parts[parts.len() - 1] is Ok);
        }
        if join_parts(parts) is Ok {
            assert forall|i: int| 0 <= i < parts.len() implies #[trigger] parts[i] is Ok by {
                if i < parts.len() - 1 {
                    assert(init[i] == parts[i]);
                }
            }
        }
    }
}

/// Canonical serialization fails exactly when the value holds, at any
/// depth, a number with a fraction or an exponent.
pub proof fn canonical_fails_exactly_on_floats(j: Json)
    ensures
        (canonical_json(j) is Err) == has_float(j),
    decreases j,
{
    match j {
        Json::Array(items) => {
            let parts = render_items(items);
            lemma_render_items_index(items);
            lemma_join_parts_ok(parts);
            lemma_items_have_float(items);
            assert forall|i: int| 0 <= i < items.len() implies (canonical_json(#[trigger] items[i]) is Err) == has_float(items[i]) by {
                assert(decreases_to!(j => items));
                assert(decreases_to!(items => items[i]));
                canonical_fails_exactly_on_floats(items[i]);
            }
            if has_float(j) {
                let i = choose|i: int| 0 <= i < items.len() && #[trigger] has_float(items[i]);
                assert(!(parts[i] is Ok));
            }
            if !has_float(j) {
                assert forall|i: int| 0 <= i < parts.len() implies #[trigger] parts[i] is Ok by {
                    assert(!has_float(items[i]));
                }
            }
        },
        Json::Object(ms) => {
            let rendered = render_members(ms);
            let sorted = sort_by_key(rendered);
            let parts = sorted.map_values(|p: (Seq<char>, Result<Seq<u8>, Seq<char>>)| member_part(p));
            lemma_render_members_index(ms);
            lemma_sort_by_key(rendered);
            lemma_join_parts_ok(parts);
            lemma_members_have_float(ms);
            assert forall|i: int| 0 <= i < ms.len() implies (canonical_json(#[trigger] ms[i].1) is Err) == has_float(ms[i].1) by {
                assert(decreases_to!(j => ms));
                assert(decreases_to!(ms => ms[i]));
                assert(decreases_to!(ms[i] => ms[i].1));
                canonical_fails_exactly_on_floats(ms[i].1);
            }
            if has_float(j) {
                let i = choose|i: int| 0 <= i < ms.len() && #[trigger] has_float(ms[i].1);
                let x = rendered[i];
                assert(x.1 is Err);
                assert(rendered.contains(x));
                assert(sorted.to_multiset().count(x) > 0);
                assert(sorted.contains(x));
                let k = choose|k: int| 0 <= k < sorted.len() && sorted[k] == x;
                assert(!(parts[k] is Ok));
            }
            if !has_float(j) {
                assert forall|k: int| 0 <= k < parts.len() implies #[trigger] parts[k] is Ok by {
                    let x = sorted[k];
                    assert(sorted.contains(x));
                    assert(rendered.to_multiset().count(x) > 0);
                    assert(rendered.contains(x));
                    let i = choose|i: int| 0 <= i < rendered.len() && rendered[i] == x;
                    assert(!has_float(ms[i].1));
                }
            }
        },
        _ => {},
    }
}

} // verus!

verus! {

/// An object none of whose member values holds such a number holds none.
proof fn lemma_object_without_float(s: Seq<(Seq<char>, Json)>)
    requires
        forall|i: int| 0 <= i < s.len() ==> !has_float(#[trigger] s[i].1),
    ensures
        !has_float(Json::Object(s)),
{
    lemma_members_have_float(s);
}

proof fn lemma_strings_without_float(v: Seq<String>)
    ensures
        !has_float(Json::Array(strings_json(v))),
{
    lemma_items_have_float(strings_json(v));
}

proof fn lemma_money_without_float(m: Money)
    ensures
        !has_float(money_json(m)),
{
    let s = seq![("amount"@, Json::Str(m.amount@)), ("currency"@, Json::Str(m.currency@))];
    assert forall|i: int| 0 <= i < s.len() implies !has_float(#[trigger] s[i].1) by {
        if i == 0 {
        } else {
        }
    }
    lemma_object_without_float(s);
}

proof fn lemma_opt_text_without_float(key: Seq<char>, o: Option<String>)
    ensures
        forall|i: int| 0 <= i < opt_text_member(key, o).len() ==> !has_float(#[trigger] opt_text_member(key, o)[i].1),
{
}

proof fn lemma_budget_without_float(b: Budget)
    ensures
        !has_float(budget_json(b)),
{
    let head = seq![
        ("max_total"@, money_json(b.max_total)),
        ("settlement_rails"@, Json::Array(strings_json(b.settlement_rails@))),
        ("fees_inclusive"@, Json::Bool(b.fees_inclusive)),
    ];
    let tail = opt_text_member("tip_policy"@, b.tip_policy);
    let s = head + tail;
    lemma_money_without_float(b.max_total);
    lemma_strings_without_float(b.settlement_rails@);
    lemma_opt_text_without_float("tip_policy"@, b.tip_policy);
    assert forall|i: int| 0 <= i < s.len() implies !has_float(#[trigger] s[i].1) by {
        if i < 3 {
            assert(s[i] == head[i]);
            if i == 0 {
            } else if i == 1 {
            } else {
            }
        } else {
            assert(s[i] == tail[i - 3]);
        }
    }
    lemma_object_without_float(s);
}

proof fn lemma_preferences_without_float(p: Preferences)
    ensures
        !has_float(preferences_json(p)),
{
    let head = opt_text_member("vault_pointer"@, p.vault_pointer);
    let tail = match p.vault_grant {
        Some(g) => seq![("vault_grant"@, vault_grant_json(g))],
        None => Seq::<(Seq<char>, Json)>::empty(),
    };
    let s = head + tail;
    lemma_opt_text_without_float("vault_pointer"@, p.vault_pointer);
    if let Some(g) = p.vault_grant {
        let gs = seq![("type"@, Json::Str(g.kind@)), ("value"@, Json::Str(g.value@))];
        assert forall|i: int| 0 <= i < gs.len() implies !has_float(#[trigger] gs[i].1) by {
            if i == 0 {
            } else {
            }
        }
        lemma_object_without_float(gs);
    }
    assert forall|i: int| 0 <= i < s.len() implies !has_float(#[trigger] s[i].1) by {
        if i < head.len() {
            assert(s[i] == head[i]);
        } else {
            assert(s[i] == tail[i - head.len()]);
        }
    }
    lemma_object_without_float(s);
}

proof fn lemma_policies_without_float(p: Policies)
    ensures
        !has_float(policies_json(p)),
{
    let a = opt_text_member("fulfillment_by"@, p.fulfillment_by);
    let b = match p.return_window_days_min {
        Some(d) => seq![("return_window_days_min"@, Json::Int(d as int))],
        None => Seq::<(Seq<char>, Json)>::empty(),
    };
    let c = opt_text_member("substitutions"@, p.substitutions);
    let d = match p.shipping_destinations {
        Some(v) => seq![("shipping_destinations"@, Json::Array(strings_json(v@)))],
        None => Seq::<(Seq<char>, Json)>::empty(),
    };
    let e = opt_text_member("data_sharing"@, p.data_sharing);
    let s = a + b + c + d + e;
    lemma_opt_text_without_float("fulfillment_by"@, p.fulfillment_by);
    lemma_opt_text_without_float("substitutions"@, p.substitutions);
    lemma_opt_text_without_float("data_sharing"@, p.data_sharing);
    if let Some(v) = p.shipping_destinations {
        lemma_strings_without_float(v@);
    }
    assert forall|i: int| 0 <= i < s.len() implies !has_float(#[trigger] s[i].1) by {
        let n1 = a.len();
        let n2 = n1 + b.len();
        let n3 = n2 + c.len();
        let n4 = n3 + d.len();
        if i < n1 {
            assert(s[i] == a[i]);
        } else if i < n2 {
            assert(s[i] == b[i - n1]);
        } else if i < n3 {
            assert(s[i] == c[i - n2]);
        } else if i < n4 {
            assert(s[i] == d[i - n3]);
        } else {
            assert(s[i] == e[i - n4]);
        }
    }
    lemma_object_without_float(s);
}

proof fn lemma_hashed_parts_without_float(m: Mandate)
    ensures
        !has_float(hashed_buyer_json(m.buyer)),
        !has_float(hashed_agent_json(m.agent)),
        !has_float(hashed_lifecycle_json(m.lifecycle)),
        m.approval matches Some(a) ==> !has_float(hashed_approval_json(a)),
{
    let b = m.buyer;
    let sig = seq![("alg"@, Json::Str(b.sig.alg@)), ("value"@, Json::Null)];
    assert forall|i: int| 0 <= i < sig.len() implies !has_float(#[trigger] sig[i].1) by {
        if i == 0 {
        } else {
        }
    }
    lemma_object_without_float(sig);
    let bs = seq![("wallet"@, Json::Str(b.wallet@)), ("sig"@, Json::Object(sig))];
    assert forall|i: int| 0 <= i < bs.len() implies !has_float(#[trigger] bs[i].1) by {
        if i == 0 {
        } else {
        }
    }
    lemma_object_without_float(bs);
    let t = m.agent.attestation;
    let head = seq![("type"@, Json::Str(t.kind@))];
    let mid = match t.vcek_chain {
        Some(_) => seq![("vcek_chain"@, Json::Null)],
        None => Seq::<(Seq<char>, Json)>::empty(),
    };
    let tail = seq![("report"@, Json::Null), ("report_data_binding"@, Json::Str(t.report_data_binding@))];
    let att = head + mid + tail;
    assert forall|i: int| 0 <= i < att.len() implies !has_float(#[trigger] att[i].1) by {
        if i < 1 {
            assert(att[i] == head[i]);
        } else if i < 1 + mid.len() {
            assert(att[i] == mid[i - 1]);
        } else {
            assert(att[i] == tail[i - 1 - mid.len()]);
            if i - 1 - mid.len() == 0 {
            } else {
            }
        }
    }
    lemma_object_without_float(att);
    let ag = seq![("runtime_id"@, Json::Str(m.agent.runtime_id@)), ("attestation"@, Json::Object(att))];
    assert forall|i: int| 0 <= i < ag.len() implies !has_float(#[trigger] ag[i].1) by {
        if i == 0 {
        } else {
        }
    }
    lemma_object_without_float(ag);
    let l = m.lifecycle;
    let ls = seq![
        ("created_at"@, Json::Str(l.created_at@)),
        ("expires_at"@, Json::Str(l.expires_at@)),
        ("nonce"@, Json::Str(l.nonce@)),
        ("bound_to_merchant"@, Json::Null),
        ("state"@, Json::Str(l.state@)),
    ];
    assert forall|i: int| 0 <= i < ls.len() implies !has_float(#[trigger] ls[i].1) by {
        if i == 0 {
        } else if i == 1 {
        } else if i == 2 {
        } else if i == 3 {
        } else {
        }
    }
    lemma_object_without_float(ls);
    if let Some(a) = m.approval {
        let h = match a.human_required_above {
            Some(x) => seq![("human_required_above"@, money_json(x))],
            None => Seq::<(Seq<char>, Json)>::empty(),
        };
        if let Some(x) = a.human_required_above {
            lemma_money_without_float(x);
        }
        let s = h + seq![("approval_sig"@, Json::Null)];
        assert forall|i: int| 0 <= i < s.len() implies !has_float(#[trigger] s[i].1) by {
            if i < h.len() {
                assert(s[i] == h[i]);
            } else {
                assert(s[i] == ("approval_sig"@, Json::Null));
            }
        }
        lemma_object_without_float(s);
    }
}

/// Serializing a mandate's canonical body fails exactly when its structured
/// intent holds, at any depth, a number with a fraction or an exponent.
pub proof fn canonical_body_fails_exactly_on_floats(m: Mandate)
    ensures
        (canonical_body_of(m) is Err) == (m.intent.structured matches Some(v) && has_float(v@)),
{
    lemma_hashing_mask_mandate(m);
    canonical_fails_exactly_on_floats(hashed_mandate_json(m));
    lemma_hashed_parts_without_float(m);
    lemma_budget_without_float(m.budget);
    let intent_ms = seq![("brief"@, Json::Str(m.intent.brief@))] + match m.intent.structured {
        Some(v) => seq![("structured"@, v@)],
        None => Seq::<(Seq<char>, Json)>::empty(),
    };
    lemma_members_have_float(intent_ms);
    let intent_float = m.intent.structured matches Some(v) && has_float(v@);
    assert(intent_json(m.intent) == Json::Object(intent_ms));
    assert(has_float(intent_json(m.intent)) == intent_float) by {
        assert(intent_ms[0] == ("brief"@, Json::Str(m.intent.brief@)));
        if let Some(v) = m.intent.structured {
            assert(intent_ms[1] == ("structured"@, v@));
            assert(has_float(intent_ms[1].1) == has_float(v@));
        }
        if !intent_float {
            assert forall|i: int| 0 <= i < intent_ms.len() implies !has_float(#[trigger] intent_ms[i].1) by {
                if i == 0 {
                } else {
                }
            }
        }
    }
    let base = seq![
        ("version"@, Json::Str(m.version@)),
        ("id"@, Json::Null),
        ("buyer"@, hashed_buyer_json(m.buyer)),
        ("intent"@, intent_json(m.intent)),
        ("budget"@, budget_json(m.budget)),
    ];
    let pref = match m.preferences {
        Some(p) => seq![("preferences"@, preferences_json(p))],
        None => Seq::<(Seq<char>, Json)>::empty(),
    };
    let pol = match m.policies {
        Some(p) => seq![("policies"@, policies_json(p))],
        None => Seq::<(Seq<char>, Json)>::empty(),
    };
    let agent = seq![("agent"@, hashed_agent_json(m.agent))];
    let appr = match m.approval {
        Some(a) => seq![("approval"@, hashed_approval_json(a))],
        None => Seq::<(Seq<char>, Json)>::empty(),
    };
    let life = seq![("lifecycle"@, hashed_lifecycle_json(m.lifecycle))];
    let ms = base + pref + pol + agent + appr + life;
    assert(hashed_mandate_json(m) == Json::Object(ms));
    if let Some(p) = m.preferences {
        lemma_preferences_without_float(p);
    }
    if let Some(p) = m.policies {
        lemma_policies_without_float(p);
    }
    lemma_members_have_float(ms);
    assert forall|i: int| 0 <= i < ms.len() && i != 3 implies !has_float(#[trigger] ms[i].1) by {
        let n1 = 5 + pref.len();
        let n2 = n1 + pol.len();
        let n3 = n2 + 1;
        let n4 = n3 + appr.len();
        if i < 5 {
            assert(ms[i] == base[i]);
            if i == 0 {
            } else if i == 1 {
            } else if i == 2 {
            } else {
            }
        } else if i < n1 {
            assert(ms[i] == pref[i - 5]);
        } else if i < n2 {
            assert(ms[i] == pol[i - n1]);
        } else if i < n3 {
            assert(ms[i] == agent[i - n2]);
        } else if i < n4 {
            assert(ms[i] == appr[i - n3]);
        } else {
            assert(ms[i] == life[i - n4]);
        }
    }
    assert(ms[3] == ("intent"@, intent_json(m.intent)));
    assert(has_float(ms[3].1) == intent_float);
    assert(has_float(hashed_mandate_json(m)) == members_have_float(ms));
    if !intent_float {
        assert forall|i: int| 0 <= i < ms.len() implies !has_float(#[trigger] ms[i].1) by {
            if i == 3 {
            }
        }
    }
}

} // verus!
