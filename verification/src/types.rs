//! The mandate and its parts, and their JSON form.

use vstd::prelude::*;
use crate::json::{Json, Number, Value, members_view, items_view, lemma_members_view_push, lemma_items_view_push, clone_value,
    lemma_items_numbers_push, lemma_members_numbers_push, items_numbers_canonical, members_numbers_canonical, numbers_canonical,
    json_keys_distinct, keys_distinct, value_well_formed, lemma_members_keys_distinct, lemma_items_keys_distinct};

verus! {

/// A signed, attested purchasing mandate.
#[derive(Debug)]
pub struct Mandate {
    pub version: String,
    pub id: String,
    pub buyer: Buyer,
    pub intent: Intent,
    pub budget: Budget,
    pub preferences: Option<Preferences>,
    pub policies: Option<Policies>,
    pub agent: Agent,
    pub approval: Option<Approval>,
    pub lifecycle: Lifecycle,
}

/// The buyer's wallet and its signature over the canonical body.
#[derive(Debug)]
pub struct Buyer {
    pub wallet: String,
    pub sig: Signature,
}

/// A signature: its algorithm and its encoded value.
#[derive(Debug)]
pub struct Signature {
    pub alg: String,
    pub value: String,
}

/// What the buyer wants, in words and optionally as structured data.
#[derive(Debug)]
pub struct Intent {
    pub brief: String,
    pub structured: Option<Value>,
}

/// The spending cap and the accepted settlement rails.
#[derive(Debug)]
pub struct Budget {
    pub max_total: Money,
    pub settlement_rails: Vec<String>,
    pub fees_inclusive: bool,
    pub tip_policy: Option<String>,
}

/// An amount in a currency, both as text.
#[derive(Debug)]
pub struct Money {
    pub amount: String,
    pub currency: String,
}

/// Where the buyer's preferences live.
#[derive(Debug)]
pub struct Preferences {
    pub vault_pointer: Option<String>,
    pub vault_grant: Option<VaultGrant>,
}

/// A grant of access to the buyer's vault (`type` on the wire).
#[derive(Debug)]
pub struct VaultGrant {
    pub kind: String,
    pub value: String,
}

/// The buyer's purchasing policies.
#[derive(Debug)]
pub struct Policies {
    pub fulfillment_by: Option<String>,
    pub return_window_days_min: Option<u32>,
    pub substitutions: Option<String>,
    pub shipping_destinations: Option<Vec<String>>,
    pub data_sharing: Option<String>,
}

/// The agent runtime that minted the mandate.
#[derive(Debug)]
pub struct Agent {
    pub runtime_id: String,
    pub attestation: Attestation,
}

/// The runtime's attestation (`type` on the wire).
#[derive(Debug)]
pub struct Attestation {
    pub kind: String,
    pub vcek_chain: Option<String>,
    pub report: String,
    pub report_data_binding: String,
}

/// The human-approval threshold and the approval signature.
#[derive(Debug)]
pub struct Approval {
    pub human_required_above: Option<Money>,
    pub approval_sig: Option<Signature>,
}

/// Timestamps, nonce, merchant binding and state.
#[derive(Debug)]
pub struct Lifecycle {
    pub created_at: String,
    pub expires_at: String,
    pub nonce: String,
    pub bound_to_merchant: Option<String>,
    pub state: String,
}

/// The value `fees_inclusive` takes when the wire form leaves it out.
pub fn default_true() -> (r: bool)
    ensures
        r,
{
    true
}

/// JSON strings of a list of texts.
pub open spec fn strings_json(v: Seq<String>) -> Seq<Json> {
    Seq::new(v.len(), |i: int| Json::Str(v[i]@))
}

/// A member holding a text, present only when the text is.
pub open spec fn opt_text_member(key: Seq<char>, o: Option<String>) -> Seq<(Seq<char>, Json)> {
    match o {
        Some(s) => seq![(key, Json::Str(s@))],
        None => seq![],
    }
}

/// A text, or `null` when absent.
pub open spec fn opt_text_json(o: Option<String>) -> Json {
    match o {
        Some(s) => Json::Str(s@),
        None => Json::Null,
    }
}

pub open spec fn signature_json(s: Signature) -> Json {
    Json::Object(seq![("alg"@, Json::Str(s.alg@)), ("value"@, Json::Str(s.value@))])
}

pub open spec fn buyer_json(b: Buyer) -> Json {
    Json::Object(seq![("wallet"@, Json::Str(b.wallet@)), ("sig"@, signature_json(b.sig))])
}

pub open spec fn intent_json(i: Intent) -> Json {
    Json::Object(
        seq![("brief"@, Json::Str(i.brief@))] + match i.structured {
            Some(v) => seq![("structured"@, v@)],
            None => seq![],
        },
    )
}

pub open spec fn money_json(m: Money) -> Json {
    Json::Object(seq![("amount"@, Json::Str(m.amount@)), ("currency"@, Json::Str(m.currency@))])
}

pub open spec fn budget_json(b: Budget) -> Json {
    Json::Object(
        seq![
            ("max_total"@, money_json(b.max_total)),
            ("settlement_rails"@, Json::Array(strings_json(b.settlement_rails@))),
            ("fees_inclusive"@, Json::Bool(b.fees_inclusive)),
        ] + opt_text_member("tip_policy"@, b.tip_policy),
    )
}

pub open spec fn vault_grant_json(g: VaultGrant) -> Json {
    Json::Object(seq![("type"@, Json::Str(g.kind@)), ("value"@, Json::Str(g.value@))])
}

pub open spec fn preferences_json(p: Preferences) -> Json {
    Json::Object(
        opt_text_member("vault_pointer"@, p.vault_pointer) + match p.vault_grant {
            Some(g) => seq![("vault_grant"@, vault_grant_json(g))],
            None => seq![],
        },
    )
}

pub open spec fn policies_json(p: Policies) -> Json {
    Json::Object(
        opt_text_member("fulfillment_by"@, p.fulfillment_by) + match p.return_window_days_min {
            Some(d) => seq![("return_window_days_min"@, Json::Int(d as int))],
            None => seq![],
        } + opt_text_member("substitutions"@, p.substitutions) + match p.shipping_destinations {
            Some(v) => seq![("shipping_destinations"@, Json::Array(strings_json(v@)))],
            None => seq![],
        } + opt_text_member("data_sharing"@, p.data_sharing),
    )
}

pub open spec fn attestation_json(a: Attestation) -> Json {
    Json::Object(
        seq![("type"@, Json::Str(a.kind@))] + opt_text_member("vcek_chain"@, a.vcek_chain) + seq![
            ("report"@, Json::Str(a.report@)),
            ("report_data_binding"@, Json::Str(a.report_data_binding@)),
        ],
    )
}

pub open spec fn agent_json(a: Agent) -> Json {
    Json::Object(seq![("runtime_id"@, Json::Str(a.runtime_id@)), ("attestation"@, attestation_json(a.attestation))])
}

pub open spec fn approval_json(a: Approval) -> Json {
    Json::Object(
        match a.human_required_above {
            Some(m) => seq![("human_required_above"@, money_json(m))],
            None => seq![],
        } + seq![
            (
                "approval_sig"@,
                match a.approval_sig {
                    Some(s) => signature_json(s),
                    None => Json::Null,
                },
            ),
        ],
    )
}

pub open spec fn lifecycle_json(l: Lifecycle) -> Json {
    Json::Object(
        seq![
            ("created_at"@, Json::Str(l.created_at@)),
            ("expires_at"@, Json::Str(l.expires_at@)),
            ("nonce"@, Json::Str(l.nonce@)),
            ("bound_to_merchant"@, opt_text_json(l.bound_to_merchant)),
            ("state"@, Json::Str(l.state@)),
        ],
    )
}

/// The JSON form of a mandate: its fields in declaration order, optional
/// sections left out when absent, optional signature and merchant binding
/// written as `null` when absent.
pub open spec fn mandate_json(m: Mandate) -> Json {
    Json::Object(
        seq![
            ("version"@, Json::Str(m.version@)),
            ("id"@, Json::Str(m.id@)),
            ("buyer"@, buyer_json(m.buyer)),
            ("intent"@, intent_json(m.intent)),
            ("budget"@, budget_json(m.budget)),
        ] + match m.preferences {
            Some(p) => seq![("preferences"@, preferences_json(p))],
            None => seq![],
        } + match m.policies {
            Some(p) => seq![("policies"@, policies_json(p))],
            None => seq![],
        } + seq![("agent"@, agent_json(m.agent))] + match m.approval {
            Some(a) => seq![("approval"@, approval_json(a))],
            None => seq![],
        } + seq![("lifecycle"@, lifecycle_json(m.lifecycle))],
    )
}

} // verus!

verus! {

fn push_member(ms: &mut Vec<(String, Value)>, key: &str, v: Value)
    ensures
        members_view(final(ms)@) == members_view(old(ms)@).push((key@, v@)),
        members_numbers_canonical(final(ms)@) == (members_numbers_canonical(old(ms)@) && numbers_canonical(v)),
{
    let e = (String::from_str(key), v);
    proof {
        lemma_members_view_push(ms@, e);
        lemma_members_numbers_push(ms@, e);
    }
    ms.push(e);
}

fn push_opt_text(ms: &mut Vec<(String, Value)>, key: &str, o: &Option<String>)
    ensures
        members_view(final(ms)@) == members_view(old(ms)@) + opt_text_member(key@, *o),
        members_numbers_canonical(final(ms)@) == members_numbers_canonical(old(ms)@),
{
    match o {
        Some(s) => {
            push_member(ms, key, Value::String(s.clone()));
            assert(members_view(final(ms)@) =~= members_view(old(ms)@) + opt_text_member(key@, *o));
        },
        None => {
            assert(members_view(final(ms)@) =~= members_view(old(ms)@) + opt_text_member(key@, *o));
        },
    }
}

fn text_value(s: &String) -> (r: Value)
    ensures
        numbers_canonical(r),
        r@ == Json::Str(s@),
{
    Value::String(s.clone())
}

fn opt_text_value(o: &Option<String>) -> (r: Value)
    ensures
        numbers_canonical(r),
        r@ == opt_text_json(*o),
{
    match o {
        Some(s) => Value::String(s.clone()),
        None => Value::Null,
    }
}

fn strings_value(v: &Vec<String>) -> (r: Value)
    ensures
        numbers_canonical(r),
        r@ == Json::Array(strings_json(v@)),
{
    let mut out: Vec<Value> = Vec::new();
    assert(items_numbers_canonical(out@));
    let mut i: usize = 0;
    while i < v.len()
        invariant
            i <= v.len(),
            items_view(out@) == strings_json(v@.take(i as int)),
            items_numbers_canonical(out@),
        decreases v.len() - i,
    {
        let e = Value::String(v[i].clone());
        proof {
            lemma_items_view_push(out@, e);
            lemma_items_numbers_push(out@, e);
            assert(strings_json(v@.take(i as int + 1)) =~= strings_json(v@.take(i as int)).push(Json::Str(v@[i as int]@)));
        }
        out.push(e);
        i = i + 1;
    }
    assert(v@.take(v.len() as int) =~= v@);
    Value::Array(out)
}

fn signature_value(s: &Signature) -> (r: Value)
    ensures
        numbers_canonical(r),
        r@ == signature_json(*s),
{
    let mut ms: Vec<(String, Value)> = Vec::new();
    assert(members_numbers_canonical(ms@));
    push_member(&mut ms, "alg", text_value(&s.alg));
    push_member(&mut ms, "value", text_value(&s.value));
    assert(members_view(ms@) =~= seq![("alg"@, Json::Str(s.alg@)), ("value"@, Json::Str(s.value@))]);
    Value::Object(ms)
}

fn money_value(m: &Money) -> (r: Value)
    ensures
        numbers_canonical(r),
        r@ == money_json(*m),
{
    let mut ms: Vec<(String, Value)> = Vec::new();
    assert(members_numbers_canonical(ms@));
    push_member(&mut ms, "amount", text_value(&m.amount));
    push_member(&mut ms, "currency", text_value(&m.currency));
    assert(members_view(ms@) =~= seq![("amount"@, Json::Str(m.amount@)), ("currency"@, Json::Str(m.currency@))]);
    Value::Object(ms)
}

fn buyer_value(b: &Buyer) -> (r: Value)
    ensures
        numbers_canonical(r),
        r@ == buyer_json(*b),
{
    let mut ms: Vec<(String, Value)> = Vec::new();
    assert(members_numbers_canonical(ms@));
    push_member(&mut ms, "wallet", text_value(&b.wallet));
    push_member(&mut ms, "sig", signature_value(&b.sig));
    assert(members_view(ms@) =~= seq![("wallet"@, Json::Str(b.wallet@)), ("sig"@, signature_json(b.sig))]);
    Value::Object(ms)
}

fn intent_value(i: &Intent) -> (r: Value)
    ensures
        r@ == intent_json(*i),
        (i.structured matches Some(v) ==> numbers_canonical(v)) ==> numbers_canonical(r),
{
    let mut ms: Vec<(String, Value)> = Vec::new();
    assert(members_numbers_canonical(ms@));
    push_member(&mut ms, "brief", text_value(&i.brief));
    match &i.structured {
        Some(v) => {
            push_member(&mut ms, "structured", clone_value(v));
        },
        None => {},
    }
    assert(members_view(ms@) =~= seq![("brief"@, Json::Str(i.brief@))] + match i.structured {
        Some(v) => seq![("structured"@, v@)],
        None => seq![],
    });
    Value::Object(ms)
}

fn budget_value(b: &Budget) -> (r: Value)
    ensures
        numbers_canonical(r),
        r@ == budget_json(*b),
{
    let mut ms: Vec<(String, Value)> = Vec::new();
    assert(members_numbers_canonical(ms@));
    push_member(&mut ms, "max_total", money_value(&b.max_total));
    push_member(&mut ms, "settlement_rails", strings_value(&b.settlement_rails));
    push_member(&mut ms, "fees_inclusive", Value::Bool(b.fees_inclusive));
    let ghost pre = members_view(ms@);
    push_opt_text(&mut ms, "tip_policy", &b.tip_policy);
    assert(pre =~= seq![
        ("max_total"@, money_json(b.max_total)),
        ("settlement_rails"@, Json::Array(strings_json(b.settlement_rails@))),
        ("fees_inclusive"@, Json::Bool(b.fees_inclusive)),
    ]);
    Value::Object(ms)
}

fn vault_grant_value(g: &VaultGrant) -> (r: Value)
    ensures
        numbers_canonical(r),
        r@ == vault_grant_json(*g),
{
    let mut ms: Vec<(String, Value)> = Vec::new();
    assert(members_numbers_canonical(ms@));
    push_member(&mut ms, "type", text_value(&g.kind));
    push_member(&mut ms, "value", text_value(&g.value));
    assert(members_view(ms@) =~= seq![("type"@, Json::Str(g.kind@)), ("value"@, Json::Str(g.value@))]);
    Value::Object(ms)
}

fn preferences_value(p: &Preferences) -> (r: Value)
    ensures
        numbers_canonical(r),
        r@ == preferences_json(*p),
{
    let mut ms: Vec<(String, Value)> = Vec::new();
    assert(members_numbers_canonical(ms@));
    push_opt_text(&mut ms, "vault_pointer", &p.vault_pointer);
    let ghost pre = members_view(ms@);
    match &p.vault_grant {
        Some(g) => {
            push_member(&mut ms, "vault_grant", vault_grant_value(g));
        },
        None => {},
    }
    assert(pre =~= opt_text_member("vault_pointer"@, p.vault_pointer));
    assert(members_view(ms@) =~= pre + match p.vault_grant {
        Some(g) => seq![("vault_grant"@, vault_grant_json(g))],
        None => seq![],
    });
    Value::Object(ms)
}

fn policies_value(p: &Policies) -> (r: Value)
    ensures
        numbers_canonical(r),
        r@ == policies_json(*p),
{
    let mut ms: Vec<(String, Value)> = Vec::new();
    assert(members_numbers_canonical(ms@));
    push_opt_text(&mut ms, "fulfillment_by", &p.fulfillment_by);
    let ghost s1 = members_view(ms@);
    match p.return_window_days_min {
        Some(d) => {
            push_member(&mut ms, "return_window_days_min", Value::Number(Number::PosInt(d as u64)));
        },
        None => {},
    }
    let ghost s2 = members_view(ms@);
    push_opt_text(&mut ms, "substitutions", &p.substitutions);
    let ghost s3 = members_view(ms@);
    match &p.shipping_destinations {
        Some(v) => {
            push_member(&mut ms, "shipping_destinations", strings_value(v));
        },
        None => {},
    }
    let ghost s4 = members_view(ms@);
    push_opt_text(&mut ms, "data_sharing", &p.data_sharing);
    assert(s1 =~= opt_text_member("fulfillment_by"@, p.fulfillment_by));
    assert(s2 =~= s1 + match p.return_window_days_min {
        Some(d) => seq![("return_window_days_min"@, Json::Int(d as int))],
        None => seq![],
    });
    assert(s4 =~= s3 + match p.shipping_destinations {
        Some(v) => seq![("shipping_destinations"@, Json::Array(strings_json(v@)))],
        None => seq![],
    });
    Value::Object(ms)
}

fn attestation_value(a: &Attestation) -> (r: Value)
    ensures
        numbers_canonical(r),
        r@ == attestation_json(*a),
{
    let mut ms: Vec<(String, Value)> = Vec::new();
    assert(members_numbers_canonical(ms@));
    push_member(&mut ms, "type", text_value(&a.kind));
    let ghost s1 = members_view(ms@);
    push_opt_text(&mut ms, "vcek_chain", &a.vcek_chain);
    let ghost s2 = members_view(ms@);
    push_member(&mut ms, "report", text_value(&a.report));
    push_member(&mut ms, "report_data_binding", text_value(&a.report_data_binding));
    assert(s1 =~= seq![("type"@, Json::Str(a.kind@))]);
    assert(members_view(ms@) =~= s2 + seq![
        ("report"@, Json::Str(a.report@)),
        ("report_data_binding"@, Json::Str(a.report_data_binding@)),
    ]);
    Value::Object(ms)
}

fn agent_value(a: &Agent) -> (r: Value)
    ensures
        numbers_canonical(r),
        r@ == agent_json(*a),
{
    let mut ms: Vec<(String, Value)> = Vec::new();
    assert(members_numbers_canonical(ms@));
    push_member(&mut ms, "runtime_id", text_value(&a.runtime_id));
    push_member(&mut ms, "attestation", attestation_value(&a.attestation));
    assert(members_view(ms@) =~= seq![("runtime_id"@, Json::Str(a.runtime_id@)), ("attestation"@, attestation_json(a.attestation))]);
    Value::Object(ms)
}

fn approval_value(a: &Approval) -> (r: Value)
    ensures
        numbers_canonical(r),
        r@ == approval_json(*a),
{
    let mut ms: Vec<(String, Value)> = Vec::new();
    assert(members_numbers_canonical(ms@));
    match &a.human_required_above {
        Some(m) => {
            push_member(&mut ms, "human_required_above", money_value(m));
        },
        None => {},
    }
    let ghost s1 = members_view(ms@);
    let sig = match &a.approval_sig {
        Some(s) => signature_value(s),
        None => Value::Null,
    };
    push_member(&mut ms, "approval_sig", sig);
    assert(s1 =~= match a.human_required_above {
        Some(m) => seq![("human_required_above"@, money_json(m))],
        None => seq![],
    });
    assert(members_view(ms@) =~= s1 + seq![
        (
            "approval_sig"@,
            match a.approval_sig {
                Some(s) => signature_json(s),
                None => Json::Null,
            },
        ),
    ]);
    Value::Object(ms)
}

fn lifecycle_value(l: &Lifecycle) -> (r: Value)
    ensures
        numbers_canonical(r),
        r@ == lifecycle_json(*l),
{
    let mut ms: Vec<(String, Value)> = Vec::new();
    assert(members_numbers_canonical(ms@));
    push_member(&mut ms, "created_at", text_value(&l.created_at));
    push_member(&mut ms, "expires_at", text_value(&l.expires_at));
    push_member(&mut ms, "nonce", text_value(&l.nonce));
    push_member(&mut ms, "bound_to_merchant", opt_text_value(&l.bound_to_merchant));
    push_member(&mut ms, "state", text_value(&l.state));
    assert(members_view(ms@) =~= seq![
        ("created_at"@, Json::Str(l.created_at@)),
        ("expires_at"@, Json::Str(l.expires_at@)),
        ("nonce"@, Json::Str(l.nonce@)),
        ("bound_to_merchant"@, opt_text_json(l.bound_to_merchant)),
        ("state"@, Json::Str(l.state@)),
    ]);
    Value::Object(ms)
}

/// The JSON form of a mandate, as its wire serialization writes it.
pub fn mandate_value(m: &Mandate) -> (r: Value)
    ensures
        r@ == mandate_json(*m),
        (m.intent.structured matches Some(v) ==> value_well_formed(v)) ==> value_well_formed(r),
{
    let mut ms: Vec<(String, Value)> = Vec::new();
    assert(members_numbers_canonical(ms@));
    push_member(&mut ms, "version", text_value(&m.version));
    push_member(&mut ms, "id", text_value(&m.id));
    push_member(&mut ms, "buyer", buyer_value(&m.buyer));
    push_member(&mut ms, "intent", intent_value(&m.intent));
    push_member(&mut ms, "budget", budget_value(&m.budget));
    let ghost s1 = members_view(ms@);
    match &m.preferences {
        Some(p) => {
            push_member(&mut ms, "preferences", preferences_value(p));
        },
        None => {},
    }
    let ghost s2 = members_view(ms@);
    match &m.policies {
        Some(p) => {
            push_member(&mut ms, "policies", policies_value(p));
        },
        None => {},
    }
    let ghost s3 = members_view(ms@);
    push_member(&mut ms, "agent", agent_value(&m.agent));
    let ghost s4 = members_view(ms@);
    match &m.approval {
        Some(a) => {
            push_member(&mut ms, "approval", approval_value(a));
        },
        None => {},
    }
    let ghost s5 = members_view(ms@);
    push_member(&mut ms, "lifecycle", lifecycle_value(&m.lifecycle));
    proof {
        let mm = *m;
        if mm.intent.structured matches Some(v) ==> value_well_formed(v) {
            lemma_mandate_keys_distinct(mm);
        }
    }
    assert(s1 =~= seq![
        ("version"@, Json::Str(m.version@)),
        ("id"@, Json::Str(m.id@)),
        ("buyer"@, buyer_json(m.buyer)),
        ("intent"@, intent_json(m.intent)),
        ("budget"@, budget_json(m.budget)),
    ]);
    assert(s2 =~= s1 + match m.preferences {
        Some(p) => seq![("preferences"@, preferences_json(p))],
        None => seq![],
    });
    assert(s3 =~= s2 + match m.policies {
        Some(p) => seq![("policies"@, policies_json(p))],
        None => seq![],
    });
    assert(s4 =~= s3 + seq![("agent"@, agent_json(m.agent))]);
    assert(s5 =~= s4 + match m.approval {
        Some(a) => seq![("approval"@, approval_json(a))],
        None => seq![],
    });
    assert(members_view(ms@) =~= s5 + seq![("lifecycle"@, lifecycle_json(m.lifecycle))]);
    Value::Object(ms)
}

} // verus!

verus! {

/// An object whose keys are distinct and whose member values have no
/// repeated key anywhere has no repeated key anywhere.
proof fn lemma_object_keys_distinct(ms: Seq<(Seq<char>, Json)>)
    requires
        keys_distinct(ms),
        forall|i: int| 0 <= i < ms.len() ==> json_keys_distinct(#[trigger] ms[i].1),
    ensures
        json_keys_distinct(Json::Object(ms)),
{
    lemma_members_keys_distinct(ms);
}

proof fn lemma_lifecycle_keys(l: Lifecycle)
    ensures
        json_keys_distinct(lifecycle_json(l)),
{
    reveal_strlit("created_at");
    assert("created_at"@.len() == 10 && "created_at"@[0] == 'c');
    reveal_strlit("expires_at");
    assert("expires_at"@.len() == 10 && "expires_at"@[0] == 'e');
    reveal_strlit("nonce");
    assert("nonce"@.len() == 5 && "nonce"@[0] == 'n');
    reveal_strlit("bound_to_merchant");
    assert("bound_to_merchant"@.len() == 17 && "bound_to_merchant"@[0] == 'b');
    reveal_strlit("state");
    assert("state"@.len() == 5 && "state"@[0] == 's');
    let ms = seq![
        ("created_at"@, Json::Str(l.created_at@)),
        ("expires_at"@, Json::Str(l.expires_at@)),
        ("nonce"@, Json::Str(l.nonce@)),
        ("bound_to_merchant"@, opt_text_json(l.bound_to_merchant)),
        ("state"@, Json::Str(l.state@)),
    ];
    assert(keys_distinct(ms));
    lemma_object_keys_distinct(ms);
}


proof fn lemma_strings_keys(v: Seq<String>)
    ensures
        json_keys_distinct(Json::Array(strings_json(v))),
{
    lemma_items_keys_distinct(strings_json(v));
}

proof fn lemma_signature_keys(g: Signature)
    ensures
        json_keys_distinct(signature_json(g)),
{
    reveal_strlit("alg");
    assert("alg"@.len() == 3 && "alg"@[0] == 'a');
    reveal_strlit("value");
    assert("value"@.len() == 5 && "value"@[0] == 'v');
    let ms = seq![("alg"@, Json::Str(g.alg@)), ("value"@, Json::Str(g.value@))];
    assert(keys_distinct(ms));
    lemma_object_keys_distinct(ms);
}

proof fn lemma_money_keys(m: Money)
    ensures
        json_keys_distinct(money_json(m)),
{
    reveal_strlit("amount");
    assert("amount"@.len() == 6 && "amount"@[0] == 'a');
    reveal_strlit("currency");
    assert("currency"@.len() == 8 && "currency"@[0] == 'c');
    let ms = seq![("amount"@, Json::Str(m.amount@)), ("currency"@, Json::Str(m.currency@))];
    assert(keys_distinct(ms));
    lemma_object_keys_distinct(ms);
}

proof fn lemma_buyer_keys(b: Buyer)
    ensures
        json_keys_distinct(buyer_json(b)),
{
    reveal_strlit("wallet");
    assert("wallet"@.len() == 6 && "wallet"@[0] == 'w');
    reveal_strlit("sig");
    assert("sig"@.len() == 3 && "sig"@[0] == 's');
    lemma_signature_keys(b.sig);
    let ms = seq![("wallet"@, Json::Str(b.wallet@)), ("sig"@, signature_json(b.sig))];
    assert(keys_distinct(ms));
    lemma_object_keys_distinct(ms);
}

proof fn lemma_intent_keys(i: Intent)
    requires
        i.structured matches Some(v) ==> json_keys_distinct(v@),
    ensures
        json_keys_distinct(intent_json(i)),
{
    reveal_strlit("brief");
    assert("brief"@.len() == 5 && "brief"@[0] == 'b');
    reveal_strlit("structured");
    assert("structured"@.len() == 10 && "structured"@[0] == 's');
    let ms = seq![("brief"@, Json::Str(i.brief@))] + match i.structured {
        Some(v) => seq![("structured"@, v@)],
        None => seq![],
    };
    assert(keys_distinct(ms));
    assert forall|k: int| 0 <= k < ms.len() implies json_keys_distinct(#[trigger] ms[k].1) by {
        if k == 0 {
        } else {
        }
    }
    lemma_object_keys_distinct(ms);
}

proof fn lemma_budget_keys(b: Budget)
    ensures
        json_keys_distinct(budget_json(b)),
{
    reveal_strlit("max_total");
    assert("max_total"@.len() == 9 && "max_total"@[0] == 'm');
    reveal_strlit("settlement_rails");
    assert("settlement_rails"@.len() == 16 && "settlement_rails"@[0] == 's');
    reveal_strlit("fees_inclusive");
    assert("fees_inclusive"@.len() == 14 && "fees_inclusive"@[0] == 'f');
    reveal_strlit("tip_policy");
    assert("tip_policy"@.len() == 10 && "tip_policy"@[0] == 't');
    lemma_money_keys(b.max_total);
    lemma_strings_keys(b.settlement_rails@);
    let ms = seq![
        ("max_total"@, money_json(b.max_total)),
        ("settlement_rails"@, Json::Array(strings_json(b.settlement_rails@))),
        ("fees_inclusive"@, Json::Bool(b.fees_inclusive)),
    ] + opt_text_member("tip_policy"@, b.tip_policy);
    assert(keys_distinct(ms));
    assert forall|k: int| 0 <= k < ms.len() implies json_keys_distinct(#[trigger] ms[k].1) by {
        if k == 0 {
        } else if k == 1 {
        } else {
        }
    }
    lemma_object_keys_distinct(ms);
}

proof fn lemma_preferences_keys(p: Preferences)
    ensures
        json_keys_distinct(preferences_json(p)),
{
    reveal_strlit("vault_pointer");
    assert("vault_pointer"@.len() == 13 && "vault_pointer"@[0] == 'v');
    reveal_strlit("vault_grant");
    assert("vault_grant"@.len() == 11 && "vault_grant"@[0] == 'v');
    reveal_strlit("type");
    assert("type"@.len() == 4 && "type"@[0] == 't');
    reveal_strlit("value");
    assert("value"@.len() == 5 && "value"@[0] == 'v');
    let ms = opt_text_member("vault_pointer"@, p.vault_pointer) + match p.vault_grant {
        Some(g) => seq![("vault_grant"@, vault_grant_json(g))],
        None => seq![],
    };
    if let Some(g) = p.vault_grant {
        let gs = seq![("type"@, Json::Str(g.kind@)), ("value"@, Json::Str(g.value@))];
        assert(keys_distinct(gs));
        lemma_object_keys_distinct(gs);
    }
    assert(keys_distinct(ms));
    assert forall|k: int| 0 <= k < ms.len() implies json_keys_distinct(#[trigger] ms[k].1) by {
    }
    lemma_object_keys_distinct(ms);
}

proof fn lemma_policies_keys(p: Policies)
    ensures
        json_keys_distinct(policies_json(p)),
{
    reveal_strlit("fulfillment_by");
    assert("fulfillment_by"@.len() == 14 && "fulfillment_by"@[0] == 'f');
    reveal_strlit("return_window_days_min");
    assert("return_window_days_min"@.len() == 22 && "return_window_days_min"@[0] == 'r');
    reveal_strlit("substitutions");
    assert("substitutions"@.len() == 13 && "substitutions"@[0] == 's');
    reveal_strlit("shipping_destinations");
    assert("shipping_destinations"@.len() == 21 && "shipping_destinations"@[0] == 's');
    reveal_strlit("data_sharing");
    assert("data_sharing"@.len() == 12 && "data_sharing"@[0] == 'd');
    let ms = opt_text_member("fulfillment_by"@, p.fulfillment_by) + match p.return_window_days_min {
        Some(d) => seq![("return_window_days_min"@, Json::Int(d as int))],
        None => seq![],
    } + opt_text_member("substitutions"@, p.substitutions) + match p.shipping_destinations {
        Some(v) => seq![("shipping_destinations"@, Json::Array(strings_json(v@)))],
        None => seq![],
    } + opt_text_member("data_sharing"@, p.data_sharing);
    if let Some(v) = p.shipping_destinations {
        lemma_strings_keys(v@);
    }
    assert(keys_distinct(ms));
    assert forall|k: int| 0 <= k < ms.len() implies json_keys_distinct(#[trigger] ms[k].1) by {
    }
    lemma_object_keys_distinct(ms);
}

proof fn lemma_agent_keys(a: Agent)
    ensures
        json_keys_distinct(agent_json(a)),
{
    reveal_strlit("runtime_id");
    assert("runtime_id"@.len() == 10 && "runtime_id"@[0] == 'r');
    reveal_strlit("attestation");
    assert("attestation"@.len() == 11 && "attestation"@[0] == 'a');
    reveal_strlit("type");
    assert("type"@.len() == 4 && "type"@[0] == 't');
    reveal_strlit("vcek_chain");
    assert("vcek_chain"@.len() == 10 && "vcek_chain"@[0] == 'v');
    reveal_strlit("report");
    assert("report"@.len() == 6 && "report"@[0] == 'r');
    reveal_strlit("report_data_binding");
    assert("report_data_binding"@.len() == 19 && "report_data_binding"@[0] == 'r');
    let t = a.attestation;
    let ts = seq![("type"@, Json::Str(t.kind@))] + opt_text_member("vcek_chain"@, t.vcek_chain) + seq![
        ("report"@, Json::Str(t.report@)),
        ("report_data_binding"@, Json::Str(t.report_data_binding@)),
    ];
    assert(keys_distinct(ts));
    assert forall|k: int| 0 <= k < ts.len() implies json_keys_distinct(#[trigger] ts[k].1) by {
    }
    lemma_object_keys_distinct(ts);
    let ms = seq![("runtime_id"@, Json::Str(a.runtime_id@)), ("attestation"@, attestation_json(t))];
    assert(keys_distinct(ms));
    lemma_object_keys_distinct(ms);
}

proof fn lemma_approval_keys(a: Approval)
    ensures
        json_keys_distinct(approval_json(a)),
{
    reveal_strlit("human_required_above");
    assert("human_required_above"@.len() == 20 && "human_required_above"@[0] == 'h');
    reveal_strlit("approval_sig");
    assert("approval_sig"@.len() == 12 && "approval_sig"@[0] == 'a');
    if let Some(m) = a.human_required_above {
        lemma_money_keys(m);
    }
    if let Some(g) = a.approval_sig {
        lemma_signature_keys(g);
    }
    let ms = match a.human_required_above {
        Some(m) => seq![("human_required_above"@, money_json(m))],
        None => seq![],
    } + seq![
        (
            "approval_sig"@,
            match a.approval_sig {
                Some(s) => signature_json(s),
                None => Json::Null,
            },
        ),
    ];
    assert(keys_distinct(ms));
    assert forall|k: int| 0 <= k < ms.len() implies json_keys_distinct(#[trigger] ms[k].1) by {
    }
    lemma_object_keys_distinct(ms);
}

/// No object in a mandate's JSON form has a key twice, provided none in
/// its structured intent has.
pub proof fn lemma_mandate_keys_distinct(m: Mandate)
    requires
        m.intent.structured matches Some(v) ==> json_keys_distinct(v@),
    ensures
        json_keys_distinct(mandate_json(m)),
{
    reveal_strlit("version");
    assert("version"@.len() == 7 && "version"@[0] == 'v');
    reveal_strlit("id");
    assert("id"@.len() == 2 && "id"@[0] == 'i');
    reveal_strlit("buyer");
    assert("buyer"@.len() == 5 && "buyer"@[0] == 'b');
    reveal_strlit("intent");
    assert("intent"@.len() == 6 && "intent"@[0] == 'i');
    reveal_strlit("budget");
    assert("budget"@.len() == 6 && "budget"@[0] == 'b');
    reveal_strlit("preferences");
    assert("preferences"@.len() == 11 && "preferences"@[0] == 'p');
    reveal_strlit("policies");
    assert("policies"@.len() == 8 && "policies"@[0] == 'p');
    reveal_strlit("agent");
    assert("agent"@.len() == 5 && "agent"@[0] == 'a');
    reveal_strlit("approval");
    assert("approval"@.len() == 8 && "approval"@[0] == 'a');
    reveal_strlit("lifecycle");
    assert("lifecycle"@.len() == 9 && "lifecycle"@[0] == 'l');
    lemma_buyer_keys(m.buyer);
    lemma_intent_keys(m.intent);
    lemma_budget_keys(m.budget);
    if let Some(p) = m.preferences {
        lemma_preferences_keys(p);
    }
    if let Some(p) = m.policies {
        lemma_policies_keys(p);
    }
    lemma_agent_keys(m.agent);
    if let Some(a) = m.approval {
        lemma_approval_keys(a);
    }
    lemma_lifecycle_keys(m.lifecycle);
    let ms = seq![
        ("version"@, Json::Str(m.version@)),
        ("id"@, Json::Str(m.id@)),
        ("buyer"@, buyer_json(m.buyer)),
        ("intent"@, intent_json(m.intent)),
        ("budget"@, budget_json(m.budget)),
    ] + match m.preferences {
        Some(p) => seq![("preferences"@, preferences_json(p))],
        None => seq![],
    } + match m.policies {
        Some(p) => seq![("policies"@, policies_json(p))],
        None => seq![],
    } + seq![("agent"@, agent_json(m.agent))] + match m.approval {
        Some(a) => seq![("approval"@, approval_json(a))],
        None => seq![],
    } + seq![("lifecycle"@, lifecycle_json(m.lifecycle))];
    assert(keys_distinct(ms));
    assert forall|k: int| 0 <= k < ms.len() implies json_keys_distinct(#[trigger] ms[k].1) by {
    }
    lemma_object_keys_distinct(ms);
}

} // verus!
