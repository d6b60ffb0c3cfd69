use crate::digits::{canon_int, is_int_literal, is_zero_int, is_zero_text, normalize_int_text, str_eq};
use vstd::prelude::*;

verus! {

/// The fixed protocol tag every valid event must carry.
pub open spec fn protocol_tag() -> Seq<char> {
    "brc-20"@
}

/// A deploy event as inscribed: protocol tag, ticker, maximum supply, and
/// optional mint limit and decimal places. Amounts are integer text.
#[derive(Debug, Clone, PartialEq, Eq)]
pub struct Deploy {
    pub p: String,
    pub tick: String,
    pub max: String,
    pub lim: Option<String>,
    pub dec: Option<i32>,
}

/// Spec-level shape of a deploy event.
pub ghost struct DeployV {
    pub p: Seq<char>,
    pub tick: Seq<char>,
    pub max: Seq<char>,
    pub lim: Option<Seq<char>>,
    pub dec: Option<i32>,
}

impl View for Deploy {
    type V = DeployV;

    open spec fn view(&self) -> DeployV {
        DeployV {
            p: self.p@,
            tick: self.tick@,
            max: self.max@,
            lim: match self.lim {
                Some(l) => Some(l@),
                None => None,
            },
            dec: self.dec,
        }
    }
}

/// The effective decimal places: eighteen when absent.
pub open spec fn deploy_dec_spec(d: DeployV) -> int {
    match d.dec {
        Some(x) => x as int,
        None => 18,
    }
}

/// The effective mint limit: the maximum supply when absent.
pub open spec fn deploy_lim_spec(d: DeployV) -> Seq<char> {
    match d.lim {
        Some(l) => l,
        None => d.max,
    }
}

/// A valid deploy: the fixed protocol tag, a nonzero maximum supply, a
/// nonzero effective mint limit, and decimals between zero and eighteen.
pub open spec fn deploy_valid_spec(d: DeployV) -> bool {
    &&& d.p == protocol_tag()
    &&& !is_zero_int(d.max)
    &&& !is_zero_int(deploy_lim_spec(d))
    &&& 0 <= deploy_dec_spec(d) <= 18
}

impl Deploy {
    /// The effective decimal places: eighteen when absent.
    pub fn dec(&self) -> (r: i32)
        ensures
            r as int == deploy_dec_spec(self@),
    {
        match &self.dec {
            Some(d) => *d,
            None => 18,
        }
    }

    /// The effective mint limit: the maximum supply when absent.
    pub fn lim(&self) -> (r: String)
        ensures
            r@ == deploy_lim_spec(self@),
    {
        match &self.lim {
            Some(l) => l.clone(),
            None => self.max.clone(),
        }
    }

    /// Whether this deploy passes validation.
    pub fn valid(&self) -> (r: bool)
        ensures
            r == deploy_valid_spec(self@),
    {
        if !str_eq(self.p.as_str(), "brc-20") {
            return false;
        }
        if is_zero_text(self.max.as_str()) {
            return false;
        }
        let l = self.lim();
        if is_zero_text(l.as_str()) {
            return false;
        }
        let d = self.dec();
        if d > 18 || d < 0 {
            return false;
        }
        true
    }
}

/// A mint event as inscribed.
#[derive(Debug, Clone, PartialEq, Eq)]
pub struct Mint {
    pub p: String,
    pub tick: String,
    pub amt: String,
}

/// Spec-level shape of a mint event.
pub ghost struct MintV {
    pub p: Seq<char>,
    pub tick: Seq<char>,
    pub amt: Seq<char>,
}

impl View for Mint {
    type V = MintV;

    open spec fn view(&self) -> MintV {
        MintV { p: self.p@, tick: self.tick@, amt: self.amt@ }
    }
}

/// A valid mint: the fixed protocol tag and a nonzero amount.
pub open spec fn mint_valid_spec(m: MintV) -> bool {
    m.p == protocol_tag() && !is_zero_int(m.amt)
}

impl Mint {
    /// Whether this mint passes validation.
    pub fn valid(&self) -> (r: bool)
        ensures
            r == mint_valid_spec(self@),
    {
        if !str_eq(self.p.as_str(), "brc-20") {
            return false;
        }
        if is_zero_text(self.amt.as_str()) {
            return false;
        }
        true
    }
}

/// A transfer event as inscribed.
#[derive(Debug, Clone, PartialEq, Eq)]
pub struct Transfer {
    pub p: String,
    pub tick: String,
    pub amt: String,
}

/// Spec-level shape of a transfer event.
pub ghost struct TransferV {
    pub p: Seq<char>,
    pub tick: Seq<char>,
    pub amt: Seq<char>,
}

impl View for Transfer {
    type V = TransferV;

    open spec fn view(&self) -> TransferV {
        TransferV { p: self.p@, tick: self.tick@, amt: self.amt@ }
    }
}

/// A valid transfer: the fixed protocol tag and a nonzero amount.
pub open spec fn transfer_valid_spec(t: TransferV) -> bool {
    t.p == protocol_tag() && !is_zero_int(t.amt)
}

impl Transfer {
    /// Whether this transfer passes validation.
    pub fn valid(&self) -> (r: bool)
        ensures
            r == transfer_valid_spec(self@),
    {
        if !str_eq(self.p.as_str(), "brc-20") {
            return false;
        }
        if is_zero_text(self.amt.as_str()) {
            return false;
        }
        true
    }
}

/// One protocol event, discriminated by its operation tag.
#[derive(Debug, Clone, PartialEq, Eq)]
pub enum Brc20Event {
    Deploy(Deploy),
    Mint(Mint),
    Transfer(Transfer),
}

/// Spec-level shape of one event.
pub ghost enum Brc20EventV {
    Deploy(DeployV),
    Mint(MintV),
    Transfer(TransferV),
}

impl View for Brc20Event {
    type V = Brc20EventV;

    open spec fn view(&self) -> Brc20EventV {
        match self {
            Brc20Event::Deploy(d) => Brc20EventV::Deploy(d@),
            Brc20Event::Mint(m) => Brc20EventV::Mint(m@),
            Brc20Event::Transfer(t) => Brc20EventV::Transfer(t@),
        }
    }
}

/// The protocol tag an event carries.
pub open spec fn event_p_spec(e: Brc20EventV) -> Seq<char> {
    match e {
        Brc20EventV::Deploy(d) => d.p,
        Brc20EventV::Mint(m) => m.p,
        Brc20EventV::Transfer(t) => t.p,
    }
}

/// The ticker an event names.
pub open spec fn event_tick_spec(e: Brc20EventV) -> Seq<char> {
    match e {
        Brc20EventV::Deploy(d) => d.tick,
        Brc20EventV::Mint(m) => m.tick,
        Brc20EventV::Transfer(t) => t.tick,
    }
}

/// Whether an event passes its validity predicate.
pub open spec fn event_valid_spec(e: Brc20EventV) -> bool {
    match e {
        Brc20EventV::Deploy(d) => deploy_valid_spec(d),
        Brc20EventV::Mint(m) => mint_valid_spec(m),
        Brc20EventV::Transfer(t) => transfer_valid_spec(t),
    }
}

impl Brc20Event {
    /// The protocol tag this event carries.
    pub fn p(&self) -> (r: &str)
        ensures
            r@ == event_p_spec(self@),
    {
        match self {
            Brc20Event::Deploy(d) => d.p.as_str(),
            Brc20Event::Mint(m) => m.p.as_str(),
            Brc20Event::Transfer(t) => t.p.as_str(),
        }
    }

    /// The ticker this event names.
    pub fn tick(&self) -> (r: &str)
        ensures
            r@ == event_tick_spec(self@),
    {
        match self {
            Brc20Event::Deploy(d) => d.tick.as_str(),
            Brc20Event::Mint(m) => m.tick.as_str(),
            Brc20Event::Transfer(t) => t.tick.as_str(),
        }
    }

    /// Whether this event passes its validity predicate.
    pub fn valid(&self) -> (r: bool)
        ensures
            r == event_valid_spec(self@),
    {
        match self {
            Brc20Event::Deploy(d) => d.valid(),
            Brc20Event::Mint(m) => m.valid(),
            Brc20Event::Transfer(t) => t.valid(),
        }
    }
}

/// A JSON value as the event grammar reads it: null, a string, a number
/// (kept when it is integral and fits a signed word), an object, or
/// anything else — booleans and arrays, which the grammar never takes
/// apart.
pub ghost enum JsonV {
    Null,
    Str(Seq<char>),
    Num(Option<i64>),
    Obj(Map<Seq<char>, JsonV>),
    Other,
}

/// The member of a JSON value under a key: present only on objects.
pub open spec fn json_member(j: JsonV, k: Seq<char>) -> Option<JsonV> {
    match j {
        JsonV::Obj(m) => if m.contains_key(k) {
            Some(m[k])
        } else {
            None
        },
        _ => None,
    }
}

/// The text of a string member.
pub open spec fn member_str(j: JsonV, k: Seq<char>) -> Option<Seq<char>> {
    match json_member(j, k) {
        Some(JsonV::Str(s)) => Some(s),
        _ => None,
    }
}

/// The canonical integer a string member holds, when it holds one.
pub open spec fn member_bigint(j: JsonV, k: Seq<char>) -> Option<Seq<char>> {
    match member_str(j, k) {
        Some(s) => if is_int_literal(s) {
            Some(canon_int(s))
        } else {
            None
        },
        None => None,
    }
}

/// The outside JSON value type, carried opaquely.
#[verifier::external_type_specification]
#[verifier::external_body]
pub struct ExJsonValue(serde_json::Value);

/// Names the model of an outside JSON value — which nulls, strings,
/// integral numbers and object members it holds: a function of the value
/// alone.
pub uninterp spec fn json_model(v: serde_json::Value) -> JsonV;

/// Names the model of the value a JSON text parses to: a function of the
/// text alone, nothing on malformed JSON.
pub uninterp spec fn json_of(s: Seq<char>) -> Option<JsonV>;

/// Relies on serde_json::from_str for `Value`: the JSON value the text
/// parses to, `None` on malformed JSON; its model carries the name
/// `json_of`.
#[verifier::external_body]
fn json_parse(s: &str) -> (r: Option<serde_json::Value>)
    ensures
        r is Some <==> json_of(s@) is Some,
        r matches Some(v) ==> json_of(s@) == Some(json_model(v)),
{
    serde_json::from_str(s).ok()
}

/// Relies on serde_json::Value::get by key: the member of a JSON object,
/// `None` when absent or when the value is no object.
#[verifier::external_body]
fn json_get<'a>(v: &'a serde_json::Value, key: &str) -> (r: Option<&'a serde_json::Value>)
    ensures
        r is Some <==> json_member(json_model(*v), key@) is Some,
        r matches Some(x) ==> json_member(json_model(*v), key@) == Some(json_model(*x)),
{
    v.get(key)
}

/// Relies on serde_json::Value::as_str: the text of a JSON string value.
#[verifier::external_body]
fn json_as_str(v: &serde_json::Value) -> (r: Option<String>)
    ensures
        r is Some <==> json_model(*v) is Str,
        r matches Some(s) ==> json_model(*v) == JsonV::Str(s@),
{
    v.as_str().map(|s| s.to_owned())
}

/// Relies on serde_json::Value::as_i64: the value of an integral JSON
/// number that fits, `None` for anything else.
#[verifier::external_body]
fn json_as_i64(v: &serde_json::Value) -> (r: Option<i64>)
    ensures
        r == (match json_model(*v) {
            JsonV::Num(o) => o,
            _ => None::<i64>,
        }),
{
    v.as_i64()
}

/// Relies on serde_json::Value::is_null.
#[verifier::external_body]
fn json_is_null(v: &serde_json::Value) -> (r: bool)
    ensures
        r == (json_model(*v) is Null),
{
    v.is_null()
}

/// Reads a required string member.
fn field_string(v: &serde_json::Value, key: &str) -> (r: Option<String>)
    ensures
        r is Some <==> member_str(json_model(*v), key@) is Some,
        r matches Some(s) ==> member_str(json_model(*v), key@) == Some(s@),
{
    match json_get(v, key) {
        Some(f) => json_as_str(f),
        None => None,
    }
}

/// Reads a required integer-text member: a JSON string holding an integer
/// literal, returned in canonical form.
fn field_bigint(v: &serde_json::Value, key: &str) -> (r: Option<String>)
    ensures
        r is Some <==> member_bigint(json_model(*v), key@) is Some,
        r matches Some(s) ==> member_bigint(json_model(*v), key@) == Some(s@),
{
    match field_string(v, key) {
        Some(s) => normalize_int_text(s.as_str()),
        None => None,
    }
}

/// The mint-limit member of a deploy: absent or null stays absent, a string
/// holding an integer is canonicalized, anything else drops the event.
pub open spec fn deploy_lim_of(j: JsonV) -> Option<Option<Seq<char>>> {
    match json_member(j, "lim"@) {
        None => Some(None),
        Some(JsonV::Null) => Some(None),
        Some(JsonV::Str(s)) => if is_int_literal(s) {
            Some(Some(canon_int(s)))
        } else {
            None
        },
        Some(_) => None,
    }
}

/// The decimals member of a deploy: absent or null stays absent, an
/// integral number fitting thirty-two bits is taken, anything else drops
/// the event.
pub open spec fn deploy_dec_of(j: JsonV) -> Option<Option<i32>> {
    match json_member(j, "dec"@) {
        None => Some(None),
        Some(JsonV::Null) => Some(None),
        Some(JsonV::Num(o)) => match o {
            Some(x) => if -2147483648 <= x && x <= 2147483647 {
                Some(Some(x as i32))
            } else {
                None
            },
            None => None,
        },
        Some(_) => None,
    }
}

/// The event one JSON value denotes: the `op`, `p` and `tick` members must
/// be strings, `op` picks the variant, amounts must be strings holding
/// integer literals and come out canonical, and the deploy extras follow
/// `deploy_lim_of` and `deploy_dec_of`. Anything else is no event.
pub open spec fn event_of_json(j: JsonV) -> Option<Brc20EventV> {
    match (member_str(j, "op"@), member_str(j, "p"@), member_str(j, "tick"@)) {
        (Some(op), Some(p), Some(tick)) => if op == "deploy"@ {
            match (member_bigint(j, "max"@), deploy_lim_of(j), deploy_dec_of(j)) {
                (Some(max), Some(lim), Some(dec)) => Some(
                    Brc20EventV::Deploy(DeployV { p, tick, max, lim, dec }),
                ),
                _ => None,
            }
        } else if op == "mint"@ {
            match member_bigint(j, "amt"@) {
                Some(amt) => Some(Brc20EventV::Mint(MintV { p, tick, amt })),
                None => None,
            }
        } else if op == "transfer"@ {
            match member_bigint(j, "amt"@) {
                Some(amt) => Some(Brc20EventV::Transfer(TransferV { p, tick, amt })),
                None => None,
            }
        } else {
            None
        },
        _ => None,
    }
}

/// The event JSON text denotes: the text must parse, then `event_of_json`
/// decides.
pub open spec fn event_of_text(s: Seq<char>) -> Option<Brc20EventV> {
    match json_of(s) {
        Some(j) => event_of_json(j),
        None => None,
    }
}

/// An event read from one JSON value, exactly as `event_of_json` describes.
pub fn event_from_json(v: &serde_json::Value) -> (r: Option<Brc20Event>)
    ensures
        r is Some <==> event_of_json(json_model(*v)) is Some,
        r matches Some(e) ==> event_of_json(json_model(*v)) == Some(e@),
{
    let op = match field_string(v, "op") {
        Some(s) => s,
        None => {
            return None;
        },
    };
    let p = match field_string(v, "p") {
        Some(s) => s,
        None => {
            return None;
        },
    };
    let tick = match field_string(v, "tick") {
        Some(s) => s,
        None => {
            return None;
        },
    };
    if str_eq(op.as_str(), "deploy") {
        let max = match field_bigint(v, "max") {
            Some(s) => s,
            None => {
                return None;
            },
        };
        let lim = match json_get(v, "lim") {
            Some(f) => {
                if json_is_null(f) {
                    None
                } else {
                    match json_as_str(f) {
                        Some(s) => match normalize_int_text(s.as_str()) {
                            Some(c) => Some(c),
                            None => {
                                return None;
                            },
                        },
                        None => {
                            return None;
                        },
                    }
                }
            },
            None => None,
        };
        let dec = match json_get(v, "dec") {
            Some(f) => {
                if json_is_null(f) {
                    None
                } else {
                    match json_as_i64(f) {
                        Some(x) => {
                            if -2147483648 <= x && x <= 2147483647 {
                                Some(x as i32)
                            } else {
                                return None;
                            }
                        },
                        None => {
                            return None;
                        },
                    }
                }
            },
            None => None,
        };
        Some(Brc20Event::Deploy(Deploy { p, tick, max, lim, dec }))
    } else if str_eq(op.as_str(), "mint") {
        let amt = match field_bigint(v, "amt") {
            Some(s) => s,
            None => {
                return None;
            },
        };
        Some(Brc20Event::Mint(Mint { p, tick, amt }))
    } else if str_eq(op.as_str(), "transfer") {
        let amt = match field_bigint(v, "amt") {
            Some(s) => s,
            None => {
                return None;
            },
        };
        Some(Brc20Event::Transfer(Transfer { p, tick, amt }))
    } else {
        None
    }
}

/// An event read from JSON text, exactly as `event_of_text` describes.
pub fn event_from_text(s: &str) -> (r: Option<Brc20Event>)
    ensures
        r is Some <==> event_of_text(s@) is Some,
        r matches Some(e) ==> event_of_text(s@) == Some(e@),
{
    match json_parse(s) {
        Some(v) => event_from_json(&v),
        None => None,
    }
}

} // verus!
