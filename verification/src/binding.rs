//! What the canonical body binds: two mandates with the same canonical body
//! agree on every field that the body keeps (the structured intent up to
//! the order of its objects' members).

use vstd::prelude::*;
use crate::json::{Json, keys_distinct};
use crate::keysort::sort_by_key;
use crate::reader::{
    lemma_normalize_items_index, lemma_normalize_members_index, normalize, normalize_items, normalize_members,
};
use crate::canonical::canonical_body_of;
use crate::properties::{
    hashed_agent_json, hashed_approval_json, hashed_buyer_json, hashed_lifecycle_json, hashed_mandate_json,
    lemma_hashing_mask_mandate,
};
use crate::reader::canonical_output_reads_back;
use crate::types::{
    Agent, Approval, Budget, Buyer, Intent, Lifecycle, Mandate, Money, Preferences, budget_json, intent_json, money_json,
    opt_text_member, Policies, policies_json, preferences_json, strings_json, vault_grant_json,
};

verus! {

broadcast use vstd::seq_lib::group_to_multiset_ensures;

/// The value of the member with key `k`, if there is one.
pub open spec fn member_value(ms: Seq<(Seq<char>, Json)>, k: Seq<char>) -> Option<Json> {
    if exists|i: int| 0 <= i < ms.len() && (#[trigger] ms[i]).0 == k {
        let i = choose|i: int| 0 <= i < ms.len() && (#[trigger] ms[i]).0 == k;
        Some(ms[i].1)
    } else {
        None
    }
}

/// With distinct keys, the member at `i` is the one its key finds.
pub proof fn lemma_member_value_at(ms: Seq<(Seq<char>, Json)>, i: int)
    requires
        keys_distinct(ms),
        0 <= i < ms.len(),
    ensures
        member_value(ms, ms[i].0) == Some(ms[i].1),
{
    let k = ms[i].0;
    assert(exists|j: int| 0 <= j < ms.len() && (#[trigger] ms[j]).0 == k) by {
        assert(ms[i].0 == k);
    }
    let j = choose|j: int| 0 <= j < ms.len() && (#[trigger] ms[j]).0 == k;
    if j != i {
        assert(ms[i].0 != ms[j].0);
    }
}

/// A key no member has finds nothing.
pub proof fn lemma_member_value_absent(ms: Seq<(Seq<char>, Json)>, k: Seq<char>)
    requires
        forall|i: int| 0 <= i < ms.len() ==> (#[trigger] ms[i]).0 != k,
    ensures
        member_value(ms, k) is None,
{
}

/// Two member lists with the same members and distinct keys find the same
/// value for every key.
proof fn lemma_member_value_same(x: Seq<(Seq<char>, Json)>, y: Seq<(Seq<char>, Json)>, k: Seq<char>)
    requires
        x.to_multiset() == y.to_multiset(),
        keys_distinct(x),
        keys_distinct(y),
    ensures
        member_value(x, k) == member_value(y, k),
{
    if exists|i: int| 0 <= i < x.len() && (#[trigger] x[i]).0 == k {
        let i = choose|i: int| 0 <= i < x.len() && (#[trigger] x[i]).0 == k;
        assert(x.contains(x[i]));
        assert(y.to_multiset().count(x[i]) > 0);
        assert(y.contains(x[i]));
        let j = choose|j: int| 0 <= j < y.len() && y[j] == x[i];
        lemma_member_value_at(x, i);
        lemma_member_value_at(y, j);
    } else if exists|j: int| 0 <= j < y.len() && (#[trigger] y[j]).0 == k {
        let j = choose|j: int| 0 <= j < y.len() && (#[trigger] y[j]).0 == k;
        assert(y.contains(y[j]));
        assert(x.to_multiset().count(y[j]) > 0);
        assert(x.contains(y[j]));
        let i = choose|i: int| 0 <= i < x.len() && x[i] == y[j];
        assert(x[i].0 == k);
    }
}

/// Two objects with distinct keys that normalize alike find alike
/// normalized values for every key.
pub proof fn lemma_normalized_members_agree(a: Seq<(Seq<char>, Json)>, b: Seq<(Seq<char>, Json)>, k: Seq<char>)
    requires
        keys_distinct(a),
        keys_distinct(b),
        normalize(Json::Object(a)) == normalize(Json::Object(b)),
    ensures
        member_value(normalize_members(a), k) == member_value(normalize_members(b), k),
{
    let na = normalize_members(a);
    let nb = normalize_members(b);
    lemma_normalize_members_index(a);
    lemma_normalize_members_index(b);
    assert(keys_distinct(na)) by {
        assert forall|i: int, j: int| 0 <= i < na.len() && 0 <= j < na.len() && i != j implies #[trigger] na[i].0 != #[trigger] na[j].0 by {
            assert(na[i] == (a[i].0, normalize(a[i].1)));
            assert(na[j] == (a[j].0, normalize(a[j].1)));
            assert(a[i].0 != a[j].0);
        }
    }
    assert(keys_distinct(nb)) by {
        assert forall|i: int, j: int| 0 <= i < nb.len() && 0 <= j < nb.len() && i != j implies #[trigger] nb[i].0 != #[trigger] nb[j].0 by {
            assert(nb[i] == (b[i].0, normalize(b[i].1)));
            assert(nb[j] == (b[j].0, normalize(b[j].1)));
            assert(b[i].0 != b[j].0);
        }
    }
    crate::properties::lemma_sort_by_key(na);
    crate::properties::lemma_sort_by_key(nb);
    assert(sort_by_key(na) == sort_by_key(nb));
    lemma_member_value_same(na, nb, k);
}

} // verus!

verus! {

/// Two objects that normalize alike, with distinct keys: members with the
/// same key have values that normalize alike.
pub proof fn lemma_field_at(a: Seq<(Seq<char>, Json)>, b: Seq<(Seq<char>, Json)>, i: int, j: int)
    requires
        keys_distinct(a),
        keys_distinct(b),
        normalize(Json::Object(a)) == normalize(Json::Object(b)),
        0 <= i < a.len(),
        0 <= j < b.len(),
        a[i].0 == b[j].0,
    ensures
        normalize(a[i].1) == normalize(b[j].1),
{
    let k = a[i].0;
    lemma_normalized_members_agree(a, b, k);
    lemma_normalize_members_index(a);
    lemma_normalize_members_index(b);
    let na = normalize_members(a);
    let nb = normalize_members(b);
    assert(na[i] == (a[i].0, normalize(a[i].1)));
    assert(nb[j] == (b[j].0, normalize(b[j].1)));
    assert(keys_distinct(na)) by {
        assert forall|p: int, q: int| 0 <= p < na.len() && 0 <= q < na.len() && p != q implies #[trigger] na[p].0 != #[trigger] na[q].0 by {
            assert(na[p] == (a[p].0, normalize(a[p].1)));
            assert(na[q] == (a[q].0, normalize(a[q].1)));
            assert(a[p].0 != a[q].0);
        }
    }
    assert(keys_distinct(nb)) by {
        assert forall|p: int, q: int| 0 <= p < nb.len() && 0 <= q < nb.len() && p != q implies #[trigger] nb[p].0 != #[trigger] nb[q].0 by {
            assert(nb[p] == (b[p].0, normalize(b[p].1)));
            assert(nb[q] == (b[q].0, normalize(b[q].1)));
            assert(b[p].0 != b[q].0);
        }
    }
    lemma_member_value_at(na, i);
    lemma_member_value_at(nb, j);
}

/// Two objects that normalize alike, with distinct keys, have the same
/// keys: a key of one is a key of the other.
pub proof fn lemma_field_present(a: Seq<(Seq<char>, Json)>, b: Seq<(Seq<char>, Json)>, i: int)
    requires
        keys_distinct(a),
        keys_distinct(b),
        normalize(Json::Object(a)) == normalize(Json::Object(b)),
        0 <= i < a.len(),
    ensures
        exists|j: int| 0 <= j < b.len() && (#[trigger] b[j]).0 == a[i].0,
{
    let k = a[i].0;
    lemma_normalized_members_agree(a, b, k);
    lemma_normalize_members_index(a);
    lemma_normalize_members_index(b);
    let na = normalize_members(a);
    let nb = normalize_members(b);
    assert(na[i] == (a[i].0, normalize(a[i].1)));
    assert(keys_distinct(na)) by {
        assert forall|p: int, q: int| 0 <= p < na.len() && 0 <= q < na.len() && p != q implies #[trigger] na[p].0 != #[trigger] na[q].0 by {
            assert(na[p] == (a[p].0, normalize(a[p].1)));
            assert(na[q] == (a[q].0, normalize(a[q].1)));
            assert(a[p].0 != a[q].0);
        }
    }
    lemma_member_value_at(na, i);
    if !(exists|j: int| 0 <= j < b.len() && (#[trigger] b[j]).0 == a[i].0) {
        assert forall|j: int| 0 <= j < nb.len() implies (#[trigger] nb[j]).0 != k by {
            assert(nb[j] == (b[j].0, normalize(b[j].1)));
        }
        lemma_member_value_absent(nb, k);
    }
}

} // verus!

verus! {

proof fn lemma_strings_agree(x: Seq<String>, y: Seq<String>)
    requires
        normalize(Json::Array(strings_json(x))) == normalize(Json::Array(strings_json(y))),
    ensures
        strings_json(x) == strings_json(y),
{
    lemma_normalize_items_index(strings_json(x));
    lemma_normalize_items_index(strings_json(y));
    assert(normalize_items(strings_json(x)) =~= strings_json(x));
    assert(normalize_items(strings_json(y)) =~= strings_json(y));
}

proof fn lemma_money_agree(x: Money, y: Money)
    requires
        normalize(money_json(x)) == normalize(money_json(y)),
    ensures
        money_json(x) == money_json(y),
{
    reveal_strlit("amount");
    assert("amount"@.len() == 6 && "amount"@[0] == 'a');
    reveal_strlit("currency");
    assert("currency"@.len() == 8 && "currency"@[0] == 'c');
    let a = seq![("amount"@, Json::Str(x.amount@)), ("currency"@, Json::Str(x.currency@))];
    let b = seq![("amount"@, Json::Str(y.amount@)), ("currency"@, Json::Str(y.currency@))];
    assert(keys_distinct(a) && keys_distinct(b));
    lemma_field_at(a, b, 0, 0);
    lemma_field_at(a, b, 1, 1);
}

proof fn lemma_buyer_agree(x: Buyer, y: Buyer)
    requires
        normalize(hashed_buyer_json(x)) == normalize(hashed_buyer_json(y)),
    ensures
        x.wallet@ == y.wallet@,
        x.sig.alg@ == y.sig.alg@,
{
    reveal_strlit("wallet");
    assert("wallet"@.len() == 6 && "wallet"@[0] == 'w');
    reveal_strlit("sig");
    assert("sig"@.len() == 3 && "sig"@[0] == 's');
    reveal_strlit("alg");
    assert("alg"@.len() == 3 && "alg"@[0] == 'a');
    reveal_strlit("value");
    assert("value"@.len() == 5 && "value"@[0] == 'v');
    let sa = seq![("alg"@, Json::Str(x.sig.alg@)), ("value"@, Json::Null)];
    let sb = seq![("alg"@, Json::Str(y.sig.alg@)), ("value"@, Json::Null)];
    let a = seq![("wallet"@, Json::Str(x.wallet@)), ("sig"@, Json::Object(sa))];
    let b = seq![("wallet"@, Json::Str(y.wallet@)), ("sig"@, Json::Object(sb))];
    assert(keys_distinct(a) && keys_distinct(b) && keys_distinct(sa) && keys_distinct(sb));
    lemma_field_at(a, b, 0, 0);
    lemma_field_at(a, b, 1, 1);
    lemma_field_at(sa, sb, 0, 0);
}

proof fn lemma_lifecycle_agree(x: Lifecycle, y: Lifecycle)
    requires
        normalize(hashed_lifecycle_json(x)) == normalize(hashed_lifecycle_json(y)),
    ensures
        x.created_at@ == y.created_at@,
        x.expires_at@ == y.expires_at@,
        x.nonce@ == y.nonce@,
        x.state@ == y.state@,
{
    reveal_strlit("created_at");
    assert("created_at"@.len() == 10 && "created_at"@[0] == 'c');
    reveal_strlit("expires_at");
    assert("expires_at"@.len() == 10 && "expires_at"@[0] == 'e');
    reveal_strlit("nonce");
    assert("nonce"@.len() == 5 && "nonce"@[0] == 'n');
    reveal_strlit("bound_to_merchant");
    assert("bound_to_merchant"@.len() == 17 && "bound_to_merchant"@[0] == 'b');
    reveal_strlit("state");
    assert("state"@.len() == 5 && "state"@[0] == 's');
    let a = seq![
        ("created_at"@, Json::Str(x.created_at@)),
        ("expires_at"@, Json::Str(x.expires_at@)),
        ("nonce"@, Json::Str(x.nonce@)),
        ("bound_to_merchant"@, Json::Null),
        ("state"@, Json::Str(x.state@)),
    ];
    let b = seq![
        ("created_at"@, Json::Str(y.created_at@)),
        ("expires_at"@, Json::Str(y.expires_at@)),
        ("nonce"@, Json::Str(y.nonce@)),
        ("bound_to_merchant"@, Json::Null),
        ("state"@, Json::Str(y.state@)),
    ];
    assert(keys_distinct(a) && keys_distinct(b));
    lemma_field_at(a, b, 0, 0);
    lemma_field_at(a, b, 1, 1);
    lemma_field_at(a, b, 2, 2);
    lemma_field_at(a, b, 4, 4);
}

proof fn lemma_agent_agree(x: Agent, y: Agent)
    requires
        normalize(hashed_agent_json(x)) == normalize(hashed_agent_json(y)),
    ensures
        x.runtime_id@ == y.runtime_id@,
        x.attestation.kind@ == y.attestation.kind@,
        (x.attestation.vcek_chain is Some) == (y.attestation.vcek_chain is Some),
        x.attestation.report_data_binding@ == y.attestation.report_data_binding@,
{
    reveal_strlit("runtime_id");
    assert("runtime_id"@.len() == 10 && "runtime_id"@[0] == 'r');
    reveal_strlit("attestation");
    assert("attestation"@.len() == 11 && "attestation"@[0] == 'a');
    reveal_strlit("type");
    assert("type"@.len() == 4 && "type"@[0] == 't');
    reveal_strlit("vcek_chain");
    assert("vcek_chain"@.len() == 10 && "vcek_chain"@[0] == 'v');
    reveal_strlit("report");
    assert("report"@.len() == 6 && "report"@[0] == 'r');
    reveal_strlit("report_data_binding");
    assert("report_data_binding"@.len() == 19 && "report_data_binding"@[0] == 'r');
    let ta = x.attestation;
    let tb = y.attestation;
    let ma = match ta.vcek_chain {
        Some(_) => seq![("vcek_chain"@, Json::Null)],
        None => Seq::<(Seq<char>, Json)>::empty(),
    };
    let mb = match tb.vcek_chain {
        Some(_) => seq![("vcek_chain"@, Json::Null)],
        None => Seq::<(Seq<char>, Json)>::empty(),
    };
    let aa = seq![("type"@, Json::Str(ta.kind@))] + ma + seq![
        ("report"@, Json::Null),
        ("report_data_binding"@, Json::Str(ta.report_data_binding@)),
    ];
    let ab = seq![("type"@, Json::Str(tb.kind@))] + mb + seq![
        ("report"@, Json::Null),
        ("report_data_binding"@, Json::Str(tb.report_data_binding@)),
    ];
    let a = seq![("runtime_id"@, Json::Str(x.runtime_id@)), ("attestation"@, Json::Object(aa))];
    let b = seq![("runtime_id"@, Json::Str(y.runtime_id@)), ("attestation"@, Json::Object(ab))];
    assert(keys_distinct(a) && keys_distinct(b) && keys_distinct(aa) && keys_distinct(ab));
    lemma_field_at(a, b, 0, 0);
    lemma_field_at(a, b, 1, 1);
    lemma_field_at(aa, ab, 0, 0);
    if ta.vcek_chain is Some {
        lemma_field_present(aa, ab, 1);
    }
    if tb.vcek_chain is Some {
        lemma_field_present(ab, aa, 1);
    }
    lemma_field_at(aa, ab, aa.len() - 1, ab.len() - 1);
}

proof fn lemma_approval_agree(x: Approval, y: Approval)
    requires
        normalize(hashed_approval_json(x)) == normalize(hashed_approval_json(y)),
    ensures
        match (x.human_required_above, y.human_required_above) {
            (Some(p), Some(q)) => money_json(p) == money_json(q),
            (None, None) => true,
            _ => false,
        },
{
    reveal_strlit("human_required_above");
    assert("human_required_above"@.len() == 20 && "human_required_above"@[0] == 'h');
    reveal_strlit("approval_sig");
    assert("approval_sig"@.len() == 12 && "approval_sig"@[0] == 'a');
    let ha = match x.human_required_above {
        Some(m) => seq![("human_required_above"@, money_json(m))],
        None => Seq::<(Seq<char>, Json)>::empty(),
    };
    let hb = match y.human_required_above {
        Some(m) => seq![("human_required_above"@, money_json(m))],
        None => Seq::<(Seq<char>, Json)>::empty(),
    };
    let a = ha + seq![("approval_sig"@, Json::Null)];
    let b = hb + seq![("approval_sig"@, Json::Null)];
    assert(keys_distinct(a) && keys_distinct(b));
    match (x.human_required_above, y.human_required_above) {
        (Some(p), Some(q)) => {
            lemma_field_at(a, b, 0, 0);
            lemma_money_agree(p, q);
        },
        (Some(_), None) => {
            lemma_field_present(a, b, 0);
        },
        (None, Some(_)) => {
            lemma_field_present(b, a, 0);
        },
        (None, None) => {},
    }
}

} // verus!

verus! {

proof fn lemma_budget_agree(x: Budget, y: Budget)
    requires
        normalize(budget_json(x)) == normalize(budget_json(y)),
    ensures
        budget_json(x) == budget_json(y),
{
    reveal_strlit("max_total");
    assert("max_total"@.len() == 9 && "max_total"@[0] == 'm');
    reveal_strlit("settlement_rails");
    assert("settlement_rails"@.len() == 16 && "settlement_rails"@[0] == 's');
    reveal_strlit("fees_inclusive");
    assert("fees_inclusive"@.len() == 14 && "fees_inclusive"@[0] == 'f');
    reveal_strlit("tip_policy");
    assert("tip_policy"@.len() == 10 && "tip_policy"@[0] == 't');
    let hx = seq![
        ("max_total"@, money_json(x.max_total)),
        ("settlement_rails"@, Json::Array(strings_json(x.settlement_rails@))),
        ("fees_inclusive"@, Json::Bool(x.fees_inclusive)),
    ];
    let hy = seq![
        ("max_total"@, money_json(y.max_total)),
        ("settlement_rails"@, Json::Array(strings_json(y.settlement_rails@))),
        ("fees_inclusive"@, Json::Bool(y.fees_inclusive)),
    ];
    let a = hx + opt_text_member("tip_policy"@, x.tip_policy);
    let b = hy + opt_text_member("tip_policy"@, y.tip_policy);
    assert(keys_distinct(a) && keys_distinct(b));
    lemma_field_at(a, b, 0, 0);
    lemma_money_agree(x.max_total, y.max_total);
    lemma_field_at(a, b, 1, 1);
    lemma_strings_agree(x.settlement_rails@, y.settlement_rails@);
    lemma_field_at(a, b, 2, 2);
    match (x.tip_policy, y.tip_policy) {
        (Some(_), Some(_)) => {
            lemma_field_at(a, b, 3, 3);
        },
        (Some(_), None) => {
            lemma_field_present(a, b, 3);
        },
        (None, Some(_)) => {
            lemma_field_present(b, a, 3);
        },
        (None, None) => {},
    }
}

proof fn lemma_preferences_agree(x: Preferences, y: Preferences)
    requires
        normalize(preferences_json(x)) == normalize(preferences_json(y)),
    ensures
        preferences_json(x) == preferences_json(y),
{
    reveal_strlit("vault_pointer");
    assert("vault_pointer"@.len() == 13 && "vault_pointer"@[0] == 'v');
    reveal_strlit("vault_grant");
    assert("vault_grant"@.len() == 11 && "vault_grant"@[0] == 'v');
    reveal_strlit("type");
    assert("type"@.len() == 4 && "type"@[0] == 't');
    reveal_strlit("value");
    assert("value"@.len() == 5 && "value"@[0] == 'v');
    let gx = match x.vault_grant {
        Some(g) => seq![("vault_grant"@, vault_grant_json(g))],
        None => Seq::<(Seq<char>, Json)>::empty(),
    };
    let gy = match y.vault_grant {
        Some(g) => seq![("vault_grant"@, vault_grant_json(g))],
        None => Seq::<(Seq<char>, Json)>::empty(),
    };
    let px = opt_text_member("vault_pointer"@, x.vault_pointer);
    let py = opt_text_member("vault_pointer"@, y.vault_pointer);
    let a = px + gx;
    let b = py + gy;
    assert(keys_distinct(a) && keys_distinct(b));
    match (x.vault_pointer, y.vault_pointer) {
        (Some(_), Some(_)) => {
            lemma_field_at(a, b, 0, 0);
        },
        (Some(_), None) => {
            lemma_field_present(a, b, 0);
        },
        (None, Some(_)) => {
            lemma_field_present(b, a, 0);
        },
        (None, None) => {},
    }
    assert(px.len() == py.len());
    let n = px.len() as int;
    match (x.vault_grant, y.vault_grant) {
        (Some(g), Some(h)) => {
            lemma_field_at(a, b, n, n);
            let ga = seq![("type"@, Json::Str(g.kind@)), ("value"@, Json::Str(g.value@))];
            let gb = seq![("type"@, Json::Str(h.kind@)), ("value"@, Json::Str(h.value@))];
            assert(keys_distinct(ga) && keys_distinct(gb));
            lemma_field_at(ga, gb, 0, 0);
            lemma_field_at(ga, gb, 1, 1);
        },
        (Some(_), None) => {
            lemma_field_present(a, b, n);
        },
        (None, Some(_)) => {
            lemma_field_present(b, a, n);
        },
        (None, None) => {},
    }
    assert(a =~= b);
}

} // verus!

verus! {

/// The normalized value found for the key of member `i`.
proof fn lemma_lookup(a: Seq<(Seq<char>, Json)>, i: int)
    requires
        keys_distinct(a),
        0 <= i < a.len(),
    ensures
        member_value(normalize_members(a), a[i].0) == Some(normalize(a[i].1)),
{
    lemma_normalize_members_index(a);
    let na = normalize_members(a);
    assert(na[i] == (a[i].0, normalize(a[i].1)));
    assert(keys_distinct(na)) by {
        assert forall|p: int, q: int| 0 <= p < na.len() && 0 <= q < na.len() && p != q implies #[trigger] na[p].0 != #[trigger] na[q].0 by {
            assert(na[p] == (a[p].0, normalize(a[p].1)));
            assert(na[q] == (a[q].0, normalize(a[q].1)));
            assert(a[p].0 != a[q].0);
        }
    }
    lemma_member_value_at(na, i);
}

/// A key that no member has finds nothing in the normalized members.
proof fn lemma_lookup_absent(a: Seq<(Seq<char>, Json)>, k: Seq<char>)
    requires
        forall|j: int| 0 <= j < a.len() ==> (#[trigger] a[j]).0 != k,
    ensures
        member_value(normalize_members(a), k) is None,
{
    lemma_normalize_members_index(a);
    let na = normalize_members(a);
    assert forall|j: int| 0 <= j < na.len() implies (#[trigger] na[j]).0 != k by {
        assert(na[j] == (a[j].0, normalize(a[j].1)));
    }
    lemma_member_value_absent(na, k);
}

#[verifier::spinoff_prover]
#[verifier::rlimit(40)]
proof fn lemma_policies_agree(x: Policies, y: Policies)
    requires
        normalize(policies_json(x)) == normalize(policies_json(y)),
    ensures
        policies_json(x) == policies_json(y),
{
    let a = object_of(policies_json(x));
    let b = object_of(policies_json(y));
    lemma_policies_lookups(x);
    lemma_policies_lookups(y);
    lemma_normalized_members_agree(a, b, "fulfillment_by"@);
    lemma_normalized_members_agree(a, b, "return_window_days_min"@);
    lemma_normalized_members_agree(a, b, "substitutions"@);
    lemma_normalized_members_agree(a, b, "shipping_destinations"@);
    lemma_normalized_members_agree(a, b, "data_sharing"@);
    if let (Some(v), Some(w)) = (x.shipping_destinations, y.shipping_destinations) {
        lemma_strings_agree(v@, w@);
    }
    assert(opt_text_member("fulfillment_by"@, x.fulfillment_by) == opt_text_member("fulfillment_by"@, y.fulfillment_by));
    assert(opt_text_member("substitutions"@, x.substitutions) == opt_text_member("substitutions"@, y.substitutions));
    assert(opt_text_member("data_sharing"@, x.data_sharing) == opt_text_member("data_sharing"@, y.data_sharing));
}

/// The members of a JSON object (none for any other value).
pub open spec fn object_of(j: Json) -> Seq<(Seq<char>, Json)> {
    match j {
        Json::Object(ms) => ms,
        _ => seq![],
    }
}

/// What each policy key finds in a policies object.
#[verifier::spinoff_prover]
#[verifier::rlimit(40)]
proof fn lemma_policies_lookups(x: Policies)
    ensures
        keys_distinct(object_of(policies_json(x))),
        member_value(normalize_members(object_of(policies_json(x))), "fulfillment_by"@) == match x.fulfillment_by {
            Some(s) => Some(Json::Str(s@)),
            None => None,
        },
        member_value(normalize_members(object_of(policies_json(x))), "return_window_days_min"@) == match x.return_window_days_min {
            Some(d) => Some(Json::Int(d as int)),
            None => None,
        },
        member_value(normalize_members(object_of(policies_json(x))), "substitutions"@) == match x.substitutions {
            Some(s) => Some(Json::Str(s@)),
            None => None,
        },
        member_value(normalize_members(object_of(policies_json(x))), "shipping_destinations"@) == match x.shipping_destinations {
            Some(v) => Some(normalize(Json::Array(strings_json(v@)))),
            None => None,
        },
        member_value(normalize_members(object_of(policies_json(x))), "data_sharing"@) == match x.data_sharing {
            Some(s) => Some(Json::Str(s@)),
            None => None,
        },
{
    reveal_strlit("fulfillment_by");
    assert("fulfillment_by"@.len() == 14 && "fulfillment_by"@[0] == 'f');
    reveal_strlit("return_window_days_min");
    assert("return_window_days_min"@.len() == 22 && "return_window_days_min"@[0] == 'r');
    reveal_strlit("substitutions");
    assert("substitutions"@.len() == 13 && "substitutions"@[0] == 's');
    reveal_strlit("shipping_destinations");
    assert("shipping_destinations"@.len() == 21 && "shipping_destinations"@[0] == 's');
    reveal_strlit("data_sharing");
    assert("data_sharing"@.len() == 12 && "data_sharing"@[0] == 'd');
    let a1 = opt_text_member("fulfillment_by"@, x.fulfillment_by);
    let a2 = match x.return_window_days_min {
        Some(d) => seq![("return_window_days_min"@, Json::Int(d as int))],
        None => Seq::<(Seq<char>, Json)>::empty(),
    };
    let a3 = opt_text_member("substitutions"@, x.substitutions);
    let a4 = match x.shipping_destinations {
        Some(v) => seq![("shipping_destinations"@, Json::Array(strings_json(v@)))],
        None => Seq::<(Seq<char>, Json)>::empty(),
    };
    let a5 = opt_text_member("data_sharing"@, x.data_sharing);
    let a = a1 + a2 + a3 + a4 + a5;
    assert(object_of(policies_json(x)) == a);
    assert(keys_distinct(a));
    let n2 = a1.len() as int;
    let n3 = n2 + a2.len();
    let n4 = n3 + a3.len();
    let n5 = n4 + a4.len();
    if x.fulfillment_by is Some {
        assert(a[0] == a1[0]);
        lemma_lookup(a, 0);
    } else {
        lemma_lookup_absent(a, "fulfillment_by"@);
    }
    if x.return_window_days_min is Some {
        assert(a[n2] == a2[0]);
        lemma_lookup(a, n2);
    } else {
        lemma_lookup_absent(a, "return_window_days_min"@);
    }
    if x.substitutions is Some {
        assert(a[n3] == a3[0]);
        lemma_lookup(a, n3);
    } else {
        lemma_lookup_absent(a, "substitutions"@);
    }
    if x.shipping_destinations is Some {
        assert(a[n4] == a4[0]);
        lemma_lookup(a, n4);
    } else {
        lemma_lookup_absent(a, "shipping_destinations"@);
    }
    if x.data_sharing is Some {
        assert(a[n5] == a5[0]);
        lemma_lookup(a, n5);
    } else {
        lemma_lookup_absent(a, "data_sharing"@);
    }
}

} // verus!

verus! {

/// Two intents agree: the same brief, and structured data on both or on
/// neither, alike up to the order of its objects' members.
pub open spec fn intents_agree(x: Intent, y: Intent) -> bool {
    &&& x.brief@ == y.brief@
    &&& match (x.structured, y.structured) {
        (Some(u), Some(v)) => normalize(u@) == normalize(v@),
        (None, None) => true,
        _ => false,
    }
}

proof fn lemma_intent_agree(x: Intent, y: Intent)
    requires
        normalize(intent_json(x)) == normalize(intent_json(y)),
    ensures
        intents_agree(x, y),
{
    reveal_strlit("brief");
    assert("brief"@.len() == 5 && "brief"@[0] == 'b');
    reveal_strlit("structured");
    assert("structured"@.len() == 10 && "structured"@[0] == 's');
    let a = seq![("brief"@, Json::Str(x.brief@))] + match x.structured {
        Some(v) => seq![("structured"@, v@)],
        None => Seq::<(Seq<char>, Json)>::empty(),
    };
    let b = seq![("brief"@, Json::Str(y.brief@))] + match y.structured {
        Some(v) => seq![("structured"@, v@)],
        None => Seq::<(Seq<char>, Json)>::empty(),
    };
    assert(intent_json(x) == Json::Object(a));
    assert(intent_json(y) == Json::Object(b));
    assert(keys_distinct(a) && keys_distinct(b));
    lemma_field_at(a, b, 0, 0);
    match (x.structured, y.structured) {
        (Some(_), Some(_)) => {
            lemma_field_at(a, b, 1, 1);
        },
        (Some(_), None) => {
            lemma_field_present(a, b, 1);
        },
        (None, Some(_)) => {
            lemma_field_present(b, a, 1);
        },
        (None, None) => {},
    }
}

/// What each top-level key finds in a mandate's hashed JSON form.
#[verifier::spinoff_prover]
#[verifier::rlimit(60)]
proof fn lemma_mandate_lookups(m: Mandate)
    ensures
        keys_distinct(object_of(hashed_mandate_json(m))),
        member_value(normalize_members(object_of(hashed_mandate_json(m))), "version"@) == Some(Json::Str(m.version@)),
        member_value(normalize_members(object_of(hashed_mandate_json(m))), "buyer"@) == Some(normalize(hashed_buyer_json(m.buyer))),
        member_value(normalize_members(object_of(hashed_mandate_json(m))), "intent"@) == Some(normalize(intent_json(m.intent))),
        member_value(normalize_members(object_of(hashed_mandate_json(m))), "budget"@) == Some(normalize(budget_json(m.budget))),
        member_value(normalize_members(object_of(hashed_mandate_json(m))), "preferences"@) == match m.preferences {
            Some(p) => Some(normalize(preferences_json(p))),
            None => None,
        },
        member_value(normalize_members(object_of(hashed_mandate_json(m))), "policies"@) == match m.policies {
            Some(p) => Some(normalize(policies_json(p))),
            None => None,
        },
        member_value(normalize_members(object_of(hashed_mandate_json(m))), "agent"@) == Some(normalize(hashed_agent_json(m.agent))),
        member_value(normalize_members(object_of(hashed_mandate_json(m))), "approval"@) == match m.approval {
            Some(a) => Some(normalize(hashed_approval_json(a))),
            None => None,
        },
        member_value(normalize_members(object_of(hashed_mandate_json(m))), "lifecycle"@) == Some(normalize(hashed_lifecycle_json(m.lifecycle))),
{
    reveal_strlit("version");
    assert("version"@.len() == 7 && "version"@[0] == 'v');
    reveal_strlit("id");
    assert("id"@.len() == 2 && "id"@[0] == 'i');
    reveal_strlit("buyer");
    assert("buyer"@.len() == 5 && "buyer"@[0] == 'b');
    reveal_strlit("intent");
    assert("intent"@.len() == 6 && "intent"@[0] == 'i');
    reveal_strlit("budget");
    assert("budget"@.len() == 6 && "budget"@[0] == 'b');
    reveal_strlit("preferences");
    assert("preferences"@.len() == 11 && "preferences"@[0] == 'p');
    reveal_strlit("policies");
    assert("policies"@.len() == 8 && "policies"@[0] == 'p');
    reveal_strlit("agent");
    assert("agent"@.len() == 5 && "agent"@[0] == 'a');
    reveal_strlit("approval");
    assert("approval"@.len() == 8 && "approval"@[0] == 'a');
    reveal_strlit("lifecycle");
    assert("lifecycle"@.len() == 9 && "lifecycle"@[0] == 'l');
    let base = seq![
        ("version"@, Json::Str(m.version@)),
        ("id"@, Json::Null),
        ("buyer"@, hashed_buyer_json(m.buyer)),
        ("intent"@, intent_json(m.intent)),
        ("budget"@, budget_json(m.budget)),
    ];
    let pref = match m.preferences {
        Some(p) => seq![("preferences"@, preferences_json(p))],
        None => Seq::<(Seq<char>, Json)>::empty(),
    };
    let pol = match m.policies {
        Some(p) => seq![("policies"@, policies_json(p))],
        None => Seq::<(Seq<char>, Json)>::empty(),
    };
    let agent = seq![("agent"@, hashed_agent_json(m.agent))];
    let appr = match m.approval {
        Some(a) => seq![("approval"@, hashed_approval_json(a))],
        None => Seq::<(Seq<char>, Json)>::empty(),
    };
    let life = seq![("lifecycle"@, hashed_lifecycle_json(m.lifecycle))];
    let a = base + pref + pol + agent + appr + life;
    assert(object_of(hashed_mandate_json(m)) == a);
    assert(keys_distinct(a));
    let n1 = 5 + pref.len();
    let n2 = n1 + pol.len();
    let n3 = n2 + 1;
    let n4 = n3 + appr.len();
    assert(a[0] == base[0]);
    lemma_lookup(a, 0);
    assert(a[2] == base[2]);
    lemma_lookup(a, 2);
    assert(a[3] == base[3]);
    lemma_lookup(a, 3);
    assert(a[4] == base[4]);
    lemma_lookup(a, 4);
    if m.preferences is Some {
        assert(a[5] == pref[0]);
        lemma_lookup(a, 5);
    } else {
        lemma_lookup_absent(a, "preferences"@);
    }
    if m.policies is Some {
        assert(a[n1 as int] == pol[0]);
        lemma_lookup(a, n1 as int);
    } else {
        lemma_lookup_absent(a, "policies"@);
    }
    assert(a[n2 as int] == agent[0]);
    lemma_lookup(a, n2 as int);
    if m.approval is Some {
        assert(a[n3 as int] == appr[0]);
        lemma_lookup(a, n3 as int);
    } else {
        lemma_lookup_absent(a, "approval"@);
    }
    assert(a[n4 as int] == life[0]);
    lemma_lookup(a, n4 as int);
}

/// The two mandates agree on every field that the canonical body keeps,
/// the structured intent up to the order of its objects' members.
pub open spec fn hashed_fields_agree(a: Mandate, b: Mandate) -> bool {
    &&& a.version@ == b.version@
    &&& a.buyer.wallet@ == b.buyer.wallet@
    &&& a.buyer.sig.alg@ == b.buyer.sig.alg@
    &&& intents_agree(a.intent, b.intent)
    &&& budget_json(a.budget) == budget_json(b.budget)
    &&& match (a.preferences, b.preferences) {
        (Some(p), Some(q)) => preferences_json(p) == preferences_json(q),
        (None, None) => true,
        _ => false,
    }
    &&& match (a.policies, b.policies) {
        (Some(p), Some(q)) => policies_json(p) == policies_json(q),
        (None, None) => true,
        _ => false,
    }
    &&& a.agent.runtime_id@ == b.agent.runtime_id@
    &&& a.agent.attestation.kind@ == b.agent.attestation.kind@
    &&& (a.agent.attestation.vcek_chain is Some) == (b.agent.attestation.vcek_chain is Some)
    &&& a.agent.attestation.report_data_binding@ == b.agent.attestation.report_data_binding@
    &&& match (a.approval, b.approval) {
        (Some(x), Some(y)) => match (x.human_required_above, y.human_required_above) {
            (Some(p), Some(q)) => money_json(p) == money_json(q),
            (None, None) => true,
            _ => false,
        },
        (None, None) => true,
        _ => false,
    }
    &&& a.lifecycle.created_at@ == b.lifecycle.created_at@
    &&& a.lifecycle.expires_at@ == b.lifecycle.expires_at@
    &&& a.lifecycle.nonce@ == b.lifecycle.nonce@
    &&& a.lifecycle.state@ == b.lifecycle.state@
}

/// The canonical body binds what it keeps: two mandates with the same
/// canonical body agree on every field outside the id, the signature
/// values, the attestation report and VCEK chain text and the merchant
/// binding, so a signature or an id over the body covers all of them.
pub proof fn canonical_body_binds_hashed_fields(a: Mandate, b: Mandate)
    requires
        canonical_body_of(a) is Ok,
        canonical_body_of(a) == canonical_body_of(b),
    ensures
        hashed_fields_agree(a, b),
{
    lemma_hashing_mask_mandate(a);
    lemma_hashing_mask_mandate(b);
    canonical_output_reads_back(hashed_mandate_json(a));
    canonical_output_reads_back(hashed_mandate_json(b));
    let xa = object_of(hashed_mandate_json(a));
    let xb = object_of(hashed_mandate_json(b));
    assert(hashed_mandate_json(a) == Json::Object(xa));
    assert(hashed_mandate_json(b) == Json::Object(xb));
    assert(normalize(Json::Object(xa)) == normalize(Json::Object(xb)));
    lemma_mandate_lookups(a);
    lemma_mandate_lookups(b);
    lemma_normalized_members_agree(xa, xb, "version"@);
    lemma_normalized_members_agree(xa, xb, "buyer"@);
    lemma_normalized_members_agree(xa, xb, "intent"@);
    lemma_normalized_members_agree(xa, xb, "budget"@);
    lemma_normalized_members_agree(xa, xb, "preferences"@);
    lemma_normalized_members_agree(xa, xb, "policies"@);
    lemma_normalized_members_agree(xa, xb, "agent"@);
    lemma_normalized_members_agree(xa, xb, "approval"@);
    lemma_normalized_members_agree(xa, xb, "lifecycle"@);
    lemma_buyer_agree(a.buyer, b.buyer);
    lemma_intent_agree(a.intent, b.intent);
    lemma_budget_agree(a.budget, b.budget);
    if let (Some(p), Some(q)) = (a.preferences, b.preferences) {
        lemma_preferences_agree(p, q);
    }
    if let (Some(p), Some(q)) = (a.policies, b.policies) {
        lemma_policies_agree(p, q);
    }
    lemma_agent_agree(a.agent, b.agent);
    if let (Some(x), Some(y)) = (a.approval, b.approval) {
        lemma_approval_agree(x, y);
    }
    lemma_lifecycle_agree(a.lifecycle, b.lifecycle);
}

} // verus!

verus! {

/// An optional text by its characters.
pub open spec fn opt_text(o: Option<String>) -> Option<Seq<char>> {
    match o {
        Some(s) => Some(s@),
        None => None,
    }
}

/// A list of texts by their characters.
pub open spec fn texts(v: Seq<String>) -> Seq<Seq<char>> {
    v.map_values(|s: String| s@)
}

/// Two amounts of money with the same amount and currency.
pub open spec fn same_money(x: Money, y: Money) -> bool {
    x.amount@ == y.amount@ && x.currency@ == y.currency@
}

/// Two budgets that agree field by field.
pub open spec fn same_budget(x: Budget, y: Budget) -> bool {
    &&& same_money(x.max_total, y.max_total)
    &&& texts(x.settlement_rails@) == texts(y.settlement_rails@)
    &&& x.fees_inclusive == y.fees_inclusive
    &&& opt_text(x.tip_policy) == opt_text(y.tip_policy)
}

/// Two optional preference sections that agree field by field.
pub open spec fn same_preferences(x: Option<Preferences>, y: Option<Preferences>) -> bool {
    match (x, y) {
        (Some(p), Some(q)) => {
            &&& opt_text(p.vault_pointer) == opt_text(q.vault_pointer)
            &&& match (p.vault_grant, q.vault_grant) {
                (Some(g), Some(h)) => g.kind@ == h.kind@ && g.value@ == h.value@,
                (None, None) => true,
                _ => false,
            }
        },
        (None, None) => true,
        _ => false,
    }
}

/// Two optional policy sections that agree field by field.
pub open spec fn same_policies(x: Option<Policies>, y: Option<Policies>) -> bool {
    match (x, y) {
        (Some(p), Some(q)) => {
            &&& opt_text(p.fulfillment_by) == opt_text(q.fulfillment_by)
            &&& p.return_window_days_min == q.return_window_days_min
            &&& opt_text(p.substitutions) == opt_text(q.substitutions)
            &&& match (p.shipping_destinations, q.shipping_destinations) {
                (Some(v), Some(w)) => texts(v@) == texts(w@),
                (None, None) => true,
                _ => false,
            }
            &&& opt_text(p.data_sharing) == opt_text(q.data_sharing)
        },
        (None, None) => true,
        _ => false,
    }
}

/// Two optional approval sections that agree on the amount above which a
/// human must approve.
pub open spec fn same_approval_threshold(x: Option<Approval>, y: Option<Approval>) -> bool {
    match (x, y) {
        (Some(a), Some(b)) => match (a.human_required_above, b.human_required_above) {
            (Some(p), Some(q)) => same_money(p, q),
            (None, None) => true,
            _ => false,
        },
        (None, None) => true,
        _ => false,
    }
}

/// Two mandates that agree, field by field, on everything the canonical
/// body keeps (the structured intent up to the order of its objects'
/// members).
pub open spec fn same_kept_fields(a: Mandate, b: Mandate) -> bool {
    &&& a.version@ == b.version@
    &&& a.buyer.wallet@ == b.buyer.wallet@
    &&& a.buyer.sig.alg@ == b.buyer.sig.alg@
    &&& intents_agree(a.intent, b.intent)
    &&& same_budget(a.budget, b.budget)
    &&& same_preferences(a.preferences, b.preferences)
    &&& same_policies(a.policies, b.policies)
    &&& a.agent.runtime_id@ == b.agent.runtime_id@
    &&& a.agent.attestation.kind@ == b.agent.attestation.kind@
    &&& (a.agent.attestation.vcek_chain is Some) == (b.agent.attestation.vcek_chain is Some)
    &&& a.agent.attestation.report_data_binding@ == b.agent.attestation.report_data_binding@
    &&& same_approval_threshold(a.approval, b.approval)
    &&& a.lifecycle.created_at@ == b.lifecycle.created_at@
    &&& a.lifecycle.expires_at@ == b.lifecycle.expires_at@
    &&& a.lifecycle.nonce@ == b.lifecycle.nonce@
    &&& a.lifecycle.state@ == b.lifecycle.state@
}

proof fn lemma_money_json_fields(x: Money, y: Money)
    requires
        money_json(x) == money_json(y),
    ensures
        same_money(x, y),
{
    let a = object_of(money_json(x));
    let b = object_of(money_json(y));
    assert(a[0].1 == b[0].1);
    assert(a[1].1 == b[1].1);
}

proof fn lemma_strings_json_texts(x: Seq<String>, y: Seq<String>)
    requires
        strings_json(x) == strings_json(y),
    ensures
        texts(x) == texts(y),
{
    assert(strings_json(x).len() == x.len());
    assert(strings_json(y).len() == y.len());
    assert forall|i: int| 0 <= i < x.len() implies texts(x)[i] == texts(y)[i] by {
        assert(strings_json(x)[i] == Json::Str(x[i]@));
        assert(strings_json(y)[i] == Json::Str(y[i]@));
    }
    assert(texts(x) =~= texts(y));
}

proof fn lemma_budget_json_fields(x: Budget, y: Budget)
    requires
        budget_json(x) == budget_json(y),
    ensures
        same_budget(x, y),
{
    let a = object_of(budget_json(x));
    let b = object_of(budget_json(y));
    assert(a == b);
    assert(a[0].1 == b[0].1);
    lemma_money_json_fields(x.max_total, y.max_total);
    assert(a[1].1 == b[1].1);
    lemma_strings_json_texts(x.settlement_rails@, y.settlement_rails@);
    assert(a[2].1 == b[2].1);
    assert(a.len() == 3 + opt_text_member("tip_policy"@, x.tip_policy).len());
    assert(b.len() == 3 + opt_text_member("tip_policy"@, y.tip_policy).len());
    if x.tip_policy is Some {
        assert(a[3].1 == b[3].1);
    }
}

proof fn lemma_preferences_json_fields(x: Preferences, y: Preferences)
    requires
        preferences_json(x) == preferences_json(y),
    ensures
        same_preferences(Some(x), Some(y)),
{
    reveal_strlit("vault_pointer");
    assert("vault_pointer"@.len() == 13 && "vault_pointer"@[6] == 'p');
    reveal_strlit("vault_grant");
    assert("vault_grant"@.len() == 11 && "vault_grant"@[6] == 'g');
    let gx = match x.vault_grant {
        Some(g) => seq![("vault_grant"@, vault_grant_json(g))],
        None => Seq::<(Seq<char>, Json)>::empty(),
    };
    let gy = match y.vault_grant {
        Some(g) => seq![("vault_grant"@, vault_grant_json(g))],
        None => Seq::<(Seq<char>, Json)>::empty(),
    };
    let px = opt_text_member("vault_pointer"@, x.vault_pointer);
    let py = opt_text_member("vault_pointer"@, y.vault_pointer);
    let a = px + gx;
    let b = py + gy;
    assert(object_of(preferences_json(x)) == a);
    assert(object_of(preferences_json(y)) == b);
    assert(a == b);
    if x.vault_pointer is Some {
        assert(a[0].0 == "vault_pointer"@);
        assert(y.vault_pointer is Some);
        assert(a[0].1 == b[0].1);
    } else if y.vault_pointer is Some {
        assert(b[0].0 == "vault_pointer"@);
        assert(false);
    }
    assert(px.len() == py.len());
    let n = px.len() as int;
    if x.vault_grant is Some {
        assert(y.vault_grant is Some);
        assert(a[n].1 == b[n].1);
        let g = x.vault_grant->0;
        let h = y.vault_grant->0;
        let ga = object_of(vault_grant_json(g));
        let gb = object_of(vault_grant_json(h));
        assert(ga[0].1 == gb[0].1);
        assert(ga[1].1 == gb[1].1);
    } else {
        assert(y.vault_grant is None);
    }
}

proof fn lemma_policies_json_fields(x: Policies, y: Policies)
    requires
        policies_json(x) == policies_json(y),
    ensures
        same_policies(Some(x), Some(y)),
{
    lemma_policies_lookups(x);
    lemma_policies_lookups(y);
    let k1 = "fulfillment_by"@;
    let k2 = "return_window_days_min"@;
    let k3 = "substitutions"@;
    let k4 = "shipping_destinations"@;
    let k5 = "data_sharing"@;
    let na = normalize_members(object_of(policies_json(x)));
    let nb = normalize_members(object_of(policies_json(y)));
    assert(na == nb);
    assert(member_value(na, k1) == member_value(nb, k1));
    assert(member_value(na, k2) == member_value(nb, k2));
    assert(member_value(na, k3) == member_value(nb, k3));
    assert(member_value(na, k4) == member_value(nb, k4));
    assert(member_value(na, k5) == member_value(nb, k5));
    if let (Some(v), Some(w)) = (x.shipping_destinations, y.shipping_destinations) {
        lemma_strings_agree(v@, w@);
        lemma_strings_json_texts(v@, w@);
    }
}

/// The canonical body binds every field it keeps, each on its own: two
/// mandates with the same canonical body have the same version, buyer
/// wallet and signature algorithm, brief and structured intent (up to
/// member order), budget (total, rails, fees flag and tip policy),
/// preferences, policies, agent runtime and attestation kind and binding,
/// approval threshold and lifecycle times, nonce and state. Changing any of
/// them changes the body, and with it the id and what the buyer signed.
pub proof fn canonical_body_binds_each_kept_field(a: Mandate, b: Mandate)
    requires
        canonical_body_of(a) is Ok,
        canonical_body_of(a) == canonical_body_of(b),
    ensures
        same_kept_fields(a, b),
{
    canonical_body_binds_hashed_fields(a, b);
    lemma_budget_json_fields(a.budget, b.budget);
    if let (Some(p), Some(q)) = (a.preferences, b.preferences) {
        lemma_preferences_json_fields(p, q);
    }
    if let (Some(p), Some(q)) = (a.policies, b.policies) {
        lemma_policies_json_fields(p, q);
    }
    if let (Some(x), Some(y)) = (a.approval, b.approval) {
        if let (Some(p), Some(q)) = (x.human_required_above, y.human_required_above) {
            lemma_money_json_fields(p, q);
        }
    }
}

} // verus!
