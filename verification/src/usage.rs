//! Usage snapshots, and how they are read out of a status document.

use vstd::prelude::*;

use crate::json::{self, as_i64, number_field, parse_json, string_field, Json, JsonValue};
use crate::number::{self, to_unit_fraction};
use crate::text::{self, chars_of, push_text, string_of, trimmed};

verus! {

/// A credit bucket: how much is left this period vs. the monthly grant.
#[derive(Debug, Clone, Copy, PartialEq, Eq, Structural)]
pub struct CreditBalance {
    pub available: Option<i64>,
    pub monthly: Option<i64>,
}

impl Default for CreditBalance {
    /// The bucket of which nothing is known.
    fn default() -> (r: Self)
        ensures
            r == (CreditBalance { available: None, monthly: None }),
    {
        CreditBalance { available: None, monthly: None }
    }
}

/// Per-model remaining quota, keyed by the human-readable model label.
#[derive(Debug, Clone)]
pub struct ModelQuota {
    pub label: String,
    /// The text that writes the fraction of the model's quota still available, between zero
    /// and one.
    pub remaining_fraction: Option<String>,
    /// RFC 3339 timestamp at which the quota resets.
    pub reset_time: Option<String>,
}

/// A snapshot of usage, as returned by `GetUserStatus`.
#[derive(Debug, Clone)]
pub struct AntigravityCliUsage {
    /// Loopback port the snapshot was read from.
    pub port: u16,
    pub name: Option<String>,
    pub email: Option<String>,
    pub plan_name: Option<String>,
    pub teams_tier: Option<String>,
    pub prompt_credits: CreditBalance,
    pub flow_credits: CreditBalance,
    pub models: Vec<ModelQuota>,
}

/// Why there is no usage snapshot.
#[derive(Debug)]
pub enum UsageError {
    /// The reply is not a JSON document.
    NotJson(serde_json::Error),
    /// The server refused, with a code and a message.
    Refused(String, String),
    /// The document holds neither a status nor a message.
    NoUserStatus,
}

// ---------------------------------------------------------------------------
// What the types stand for
// ---------------------------------------------------------------------------

/// What a [`ModelQuota`] says.
pub struct Quota {
    pub label: Seq<char>,
    pub remaining_fraction: Option<Seq<char>>,
    pub reset_time: Option<Seq<char>>,
}

/// What an [`AntigravityCliUsage`] says.
pub struct Usage {
    pub port: u16,
    pub name: Option<Seq<char>>,
    pub email: Option<Seq<char>>,
    pub plan_name: Option<Seq<char>>,
    pub teams_tier: Option<Seq<char>>,
    pub prompt_credits: CreditBalance,
    pub flow_credits: CreditBalance,
    pub models: Seq<Quota>,
}

/// Why a document gives no usage snapshot.
pub enum Refusal {
    /// The server refused, with a code and a message.
    Refused(Seq<char>, Seq<char>),
    /// The document holds neither a status nor a message.
    NoUserStatus,
}

/// What an optional text says.
pub open spec fn text_view(text: Option<String>) -> Option<Seq<char>> {
    match text {
        Some(text) => Some(text@),
        None => None,
    }
}

impl View for ModelQuota {
    type V = Quota;

    open spec fn view(&self) -> Quota {
        Quota {
            label: self.label@,
            remaining_fraction: text_view(self.remaining_fraction),
            reset_time: text_view(self.reset_time),
        }
    }
}

impl View for AntigravityCliUsage {
    type V = Usage;

    open spec fn view(&self) -> Usage {
        Usage {
            port: self.port,
            name: text_view(self.name),
            email: text_view(self.email),
            plan_name: text_view(self.plan_name),
            teams_tier: text_view(self.teams_tier),
            prompt_credits: self.prompt_credits,
            flow_credits: self.flow_credits,
            models: Seq::new(self.models@.len(), |i: int| self.models@[i]@),
        }
    }
}

// ---------------------------------------------------------------------------
// What a document says
// ---------------------------------------------------------------------------

/// The quota that the configuration of a model gives, if it has a label.
pub open spec fn quota_of(config: Json) -> Option<Quota> {
    let quota = config.member_or_null("quotaInfo"@);
    match config.text_member("label"@) {
        None => None,
        Some(label) => Some(
            Quota {
                label,
                remaining_fraction: match quota.member_or_null("remainingFraction"@).number_text() {
                    Some(text) => number::unit_fraction(text),
                    None => None,
                },
                reset_time: quota.text_member("resetTime"@),
            },
        ),
    }
}

/// The quotas that the configurations give, in order.
pub open spec fn quotas_of(configs: Seq<Json>) -> Seq<Quota>
    decreases configs.len(),
{
    if configs.len() == 0 {
        seq![]
    } else {
        match quota_of(configs.last()) {
            Some(quota) => quotas_of(configs.drop_last()).push(quota),
            None => quotas_of(configs.drop_last()),
        }
    }
}

/// The quotas of the models that a status lists.
pub open spec fn models_of(status: Json) -> Seq<Quota> {
    match status.member_or_null("cascadeModelConfigData"@).member_or_null("clientModelConfigs"@) {
        Json::Array(configs) => quotas_of(configs),
        _ => seq![],
    }
}

/// The snapshot that a status gives.
pub open spec fn usage_of(port: u16, status: Json) -> Usage {
    let plan_status = status.member_or_null("planStatus"@);
    let plan_info = plan_status.member_or_null("planInfo"@);
    Usage {
        port,
        name: status.text_member("name"@),
        email: status.text_member("email"@),
        plan_name: plan_info.text_member("planName"@),
        teams_tier: plan_info.text_member("teamsTier"@),
        prompt_credits: CreditBalance {
            available: plan_status.member_or_null("availablePromptCredits"@).integer(),
            monthly: plan_info.member_or_null("monthlyPromptCredits"@).integer(),
        },
        flow_credits: CreditBalance {
            available: plan_status.member_or_null("availableFlowCredits"@).integer(),
            monthly: plan_info.member_or_null("monthlyFlowCredits"@).integer(),
        },
        models: models_of(status),
    }
}

/// The snapshot that a document gives: that of its member `userStatus`, if this is an
/// object. Otherwise the server refused, if there is a message.
pub open spec fn user_status(port: u16, document: Json) -> Result<Usage, Refusal> {
    let status = document.member_or_null("userStatus"@);
    if status is Object {
        Ok(usage_of(port, status))
    } else {
        match document.text_member("message"@) {
            Some(message) => Err(
                Refusal::Refused(
                    match document.text_member("code"@) {
                        Some(code) => code,
                        None => "error"@,
                    },
                    message,
                ),
            ),
            None => Err(Refusal::NoUserStatus),
        }
    }
}

// ---------------------------------------------------------------------------
// Reading it
// ---------------------------------------------------------------------------

/// The integer that the member with the name `key` holds.
fn integer_field(value: &JsonValue, key: &str) -> (r: Option<i64>)
    ensures
        r == value@.member_or_null(key@).integer(),
{
    match value.get(key) {
        Some(member) => as_i64(member),
        None => None,
    }
}

/// The quota that the configuration of a model gives, if it has a label.
pub fn parse_model_quota(config: &JsonValue) -> (r: Option<ModelQuota>)
    ensures
        match r {
            Some(quota) => quota_of(config@) == Some(quota@),
            None => quota_of(config@) is None,
        },
{
    match string_field(config, "label") {
        None => None,
        Some(label) => {
            let null: JsonValue = JsonValue::Null;
            let quota: &JsonValue = match config.get("quotaInfo") {
                Some(quota) => quota,
                None => &null,
            };
            let remaining_fraction: Option<String> = match quota.get("remainingFraction") {
                Some(fraction) => match number_field(fraction) {
                    Some(text) => to_unit_fraction(chars_of(text.as_str()).as_slice()),
                    None => None,
                },
                None => None,
            };
            let reset_time: Option<String> = string_field(quota, "resetTime");
            Some(ModelQuota { label, remaining_fraction, reset_time })
        },
    }
}

/// The quotas of the models that a status lists.
fn parse_models(status: &JsonValue) -> (r: Vec<ModelQuota>)
    ensures
        Seq::new(r@.len(), |i: int| r@[i]@) == models_of(status@),
{
    let mut models: Vec<ModelQuota> = Vec::new();
    let null: JsonValue = JsonValue::Null;
    let data: &JsonValue = match status.get("cascadeModelConfigData") {
        Some(data) => data,
        None => &null,
    };
    let list: &JsonValue = match data.get("clientModelConfigs") {
        Some(list) => list,
        None => &null,
    };
    if let Some(configs) = list.as_array() {
        let ghost all = Seq::new(configs@.len(), |i: int| configs@[i]@);
        let mut i: usize = 0;
        assert(quotas_of(all.take(0)) =~= Seq::new(models@.len(), |j: int| models@[j]@));
        while i < configs.len()
            invariant
                i <= configs@.len(),
                all == Seq::new(configs@.len(), |i: int| configs@[i]@),
                quotas_of(all.take(i as int)) == Seq::new(models@.len(), |j: int| models@[j]@),
            decreases configs@.len() - i,
        {
            assert(all.take(i + 1).drop_last() =~= all.take(i as int));
            assert(all.take(i + 1).last() == configs@[i as int]@);
            let ghost before = Seq::new(models@.len(), |j: int| models@[j]@);
            if let Some(quota) = parse_model_quota(&configs[i]) {
                models.push(quota);
                assert(before.push(quota@) =~= Seq::new(models@.len(), |j: int| models@[j]@));
            }
            i = i + 1;
        }
        assert(all.take(all.len() as int) =~= all);
    } else {
        assert(models_of(status@) =~= Seq::new(models@.len(), |j: int| models@[j]@));
    }
    models
}

/// The snapshot that a status gives.
fn parse_usage(port: u16, status: &JsonValue) -> (r: AntigravityCliUsage)
    ensures
        r@ == usage_of(port, status@),
{
    let null: JsonValue = JsonValue::Null;
    let plan_status: &JsonValue = match status.get("planStatus") {
        Some(plan_status) => plan_status,
        None => &null,
    };
    let plan_info: &JsonValue = match plan_status.get("planInfo") {
        Some(plan_info) => plan_info,
        None => &null,
    };
    AntigravityCliUsage {
        port,
        name: string_field(status, "name"),
        email: string_field(status, "email"),
        plan_name: string_field(plan_info, "planName"),
        teams_tier: string_field(plan_info, "teamsTier"),
        prompt_credits: CreditBalance {
            available: integer_field(plan_status, "availablePromptCredits"),
            monthly: integer_field(plan_info, "monthlyPromptCredits"),
        },
        flow_credits: CreditBalance {
            available: integer_field(plan_status, "availableFlowCredits"),
            monthly: integer_field(plan_info, "monthlyFlowCredits"),
        },
        models: parse_models(status),
    }
}

/// Projects a `GetUserStatus` document into [`AntigravityCliUsage`].
pub fn parse_user_status(
    port: u16,
    json: &JsonValue,
) -> (r: Result<AntigravityCliUsage, UsageError>)
    ensures
        match r {
            Ok(usage) => user_status(port, json@) == Ok::<Usage, Refusal>(usage@),
            Err(UsageError::Refused(code, message)) => user_status(port, json@) == Err::<
                Usage,
                Refusal,
            >(Refusal::Refused(code@, message@)),
            Err(UsageError::NoUserStatus) => user_status(port, json@) == Err::<Usage, Refusal>(
                Refusal::NoUserStatus,
            ),
            Err(UsageError::NotJson(_)) => false,
        },
{
    if let Some(status) = json.get("userStatus") {
        if status.is_object() {
            return Ok(parse_usage(port, status));
        }
    }
    match string_field(json, "message") {
        Some(message) => {
            let code: String = match string_field(json, "code") {
                Some(code) => code,
                None => "error".to_owned(),
            };
            Err(UsageError::Refused(code, message))
        },
        None => Err(UsageError::NoUserStatus),
    }
}

/// The snapshot that the reply `raw` of `GetUserStatus` gives, when the server on
/// `port` sent it.
pub fn usage_from_reply(port: u16, raw: &str) -> (r: Result<AntigravityCliUsage, UsageError>)
    ensures
        match json::json_document(text::trim(raw@)) {
            None => r matches Err(UsageError::NotJson(_)),
            Some(document) => match r {
                Ok(usage) => user_status(port, document) == Ok::<Usage, Refusal>(usage@),
                Err(UsageError::Refused(code, message)) => user_status(port, document) == Err::<
                    Usage,
                    Refusal,
                >(Refusal::Refused(code@, message@)),
                Err(UsageError::NoUserStatus) => user_status(port, document) == Err::<
                    Usage,
                    Refusal,
                >(Refusal::NoUserStatus),
                Err(UsageError::NotJson(_)) => false,
            },
        },
{
    let chars: Vec<char> = chars_of(raw);
    let text: String = string_of(trimmed(chars.as_slice()));
    match parse_json(text.as_str()) {
        Ok(json) => parse_user_status(port, &json),
        Err(error) => Err(UsageError::NotJson(error)),
    }
}

/// The fraction of a quota that is left lies between zero and one.
pub proof fn remaining_fraction_is_a_fraction(config: Json)
    ensures
        quota_of(config) matches Some(quota) ==> (quota.remaining_fraction matches Some(
            text,
        ) ==> number::in_unit_range(text)),
{
    let fraction = config.member_or_null("quotaInfo"@).member_or_null("remainingFraction"@);
    if let Some(text) = fraction.number_text() {
        number::unit_fraction_is_in_unit_range(text);
    }
}

/// So it does for every model of a snapshot.
pub proof fn snapshot_holds_fractions(port: u16, status: Json, i: int)
    requires
        0 <= i < usage_of(port, status).models.len(),
    ensures
        usage_of(port, status).models[i].remaining_fraction matches Some(text)
            ==> number::in_unit_range(text),
{
    let list = status.member_or_null("cascadeModelConfigData"@).member_or_null(
        "clientModelConfigs"@,
    );
    if let Json::Array(configs) = list {
        lemma_quotas_hold_fractions(configs, i);
    }
}

proof fn lemma_quotas_hold_fractions(configs: Seq<Json>, i: int)
    requires
        0 <= i < quotas_of(configs).len(),
    ensures
        quotas_of(configs)[i].remaining_fraction matches Some(text) ==> number::in_unit_range(
            text,
        ),
    decreases configs.len(),
{
    let earlier = quotas_of(configs.drop_last());
    remaining_fraction_is_a_fraction(configs.last());
    if i < earlier.len() {
        lemma_quotas_hold_fractions(configs.drop_last(), i);
    }
}

/// Each model counts for itself: the quotas of two lists of models, one after the other,
/// are those of the lists one after the other, and a model without a label adds none.
pub proof fn model_quotas_are_independent(a: Seq<Json>, b: Seq<Json>)
    ensures
        quotas_of(a + b) == quotas_of(a) + quotas_of(b),
        b.len() == 1 ==> quotas_of(b) == (match quota_of(b[0]) {
            Some(quota) => seq![quota],
            None => seq![],
        }),
    decreases b.len(),
{
    if b.len() == 0 {
        assert(a + b =~= a);
        assert(quotas_of(a) + quotas_of(b) =~= quotas_of(a));
    } else {
        assert((a + b).drop_last() =~= a + b.drop_last());
        model_quotas_are_independent(a, b.drop_last());
        assert(quotas_of(a + b) =~= quotas_of(a) + quotas_of(b));
        if b.len() == 1 {
            assert(quotas_of(b.drop_last()) =~= seq![]);
            assert(b.last() == b[0]);
        }
    }
}

impl UsageError {
    /// The message that tells a user why there is no snapshot.
    pub open spec fn message_text(self) -> Seq<char> {
        match self {
            UsageError::NotJson(_) => "parsing GetUserStatus response"@,
            UsageError::Refused(code, message) => "agy GetUserStatus failed ("@ + code@ + "): "@
                + message@,
            UsageError::NoUserStatus => "GetUserStatus response has no `userStatus` object"@,
        }
    }

    /// The message that tells a user why there is no snapshot.
    pub fn message(&self) -> (r: String)
        ensures
            r@ == self.message_text(),
    {
        match self {
            UsageError::NotJson(_) => "parsing GetUserStatus response".to_owned(),
            UsageError::Refused(code, message) => {
                let mut r: String = String::new();
                push_text(&mut r, "agy GetUserStatus failed (");
                push_text(&mut r, code.as_str());
                push_text(&mut r, "): ");
                push_text(&mut r, message.as_str());
                assert(r@ =~= self.message_text());
                r
            },
            UsageError::NoUserStatus =>
                "GetUserStatus response has no `userStatus` object".to_owned(),
        }
    }
}

// ---------------------------------------------------------------------------
// Where each part of a snapshot comes from
// ---------------------------------------------------------------------------

/// The member with the name `key` of a value that may be missing.
pub open spec fn member_in(value: Option<Json>, key: Seq<char>) -> Option<Json> {
    match value {
        Some(value) => value.member(key),
        None => None,
    }
}

/// The text that a value is, if it is there and is a text.
pub open spec fn text_in(value: Option<Json>) -> Option<Seq<char>> {
    match value {
        Some(Json::Text(text)) => Some(text),
        _ => None,
    }
}

/// The integer that a value holds, if it is there: as a number, or as a quoted one.
pub open spec fn integer_in(value: Option<Json>) -> Option<i64> {
    match value {
        Some(Json::Number(integer, _)) => integer,
        Some(Json::Text(text)) => match number::signed_number(text) {
            Some(n) => Some(n as i64),
            None => None,
        },
        _ => None,
    }
}

/// A model has a quota if its configuration has a text member `label`, which is the label
/// of the quota. Its reset time is the text member `resetTime` of the member `quotaInfo`,
/// whatever else stands there.
pub proof fn quota_has_label_and_reset_time(config: Json)
    ensures
        match text_in(config.member("label"@)) {
            None => quota_of(config) is None,
            Some(label) => {
                &&& quota_of(config) is Some
                &&& quota_of(config)->0.label == label
                &&& quota_of(config)->0.reset_time == text_in(
                    member_in(config.member("quotaInfo"@), "resetTime"@),
                )
            },
        },
{
}

/// The fraction that is left is the member `remainingFraction` of the member `quotaInfo`, as
/// a number or as a quoted one: as it is written, if it lies between zero and one, and the
/// end of that range that it lies beyond, if not. Without a number there is none.
pub proof fn quota_has_the_fraction_that_is_written(config: Json, text: Seq<char>)
    requires
        quota_of(config) is Some,
    ensures
        ({
            let value = member_in(config.member("quotaInfo"@), "remainingFraction"@);
            let found = quota_of(config)->0.remaining_fraction;
            &&& value == Some(Json::Text(text)) || (value matches Some(Json::Number(_, shown))
                && shown == text) ==> {
                &&& number::in_unit_range(text) ==> found == Some(text)
                &&& found == number::unit_fraction(text)
            }
            &&& !(value matches Some(Json::Text(_))) && !(value matches Some(Json::Number(_, _)))
                ==> found is None
        }),
{
    number::unit_fraction_is_in_unit_range(text);
}

/// A snapshot comes from the port that was asked. Name and electronic address stand in the
/// status, the plan in its member `planStatus` and in `planInfo` there: what is available in
/// the first, names and monthly credits in the second.
pub proof fn snapshot_has_account_plan_and_credits(port: u16, status: Json)
    ensures
        ({
            let usage = usage_of(port, status);
            let plan = status.member("planStatus"@);
            let info = member_in(plan, "planInfo"@);
            &&& usage.port == port
            &&& usage.name == text_in(status.member("name"@))
            &&& usage.email == text_in(status.member("email"@))
            &&& usage.plan_name == text_in(member_in(info, "planName"@))
            &&& usage.teams_tier == text_in(member_in(info, "teamsTier"@))
            &&& usage.prompt_credits.available == integer_in(
                member_in(plan, "availablePromptCredits"@),
            )
            &&& usage.prompt_credits.monthly == integer_in(
                member_in(info, "monthlyPromptCredits"@),
            )
            &&& usage.flow_credits.available == integer_in(member_in(plan, "availableFlowCredits"@))
            &&& usage.flow_credits.monthly == integer_in(member_in(info, "monthlyFlowCredits"@))
        }),
{
}

/// The models of a snapshot are the items of `clientModelConfigs` in the member
/// `cascadeModelConfigData` of the status that have a quota, in order.
pub proof fn snapshot_has_the_models_that_are_listed(port: u16, status: Json, config: Json)
    ensures
        ({
            let list = member_in(status.member("cascadeModelConfigData"@), "clientModelConfigs"@);
            let models = usage_of(port, status).models;
            match list {
                Some(Json::Array(configs)) => models == quotas_of(configs),
                _ => models.len() == 0,
            }
        }),
        quotas_of(seq![]).len() == 0,
        forall|configs: Seq<Json>| #[trigger]
            quotas_of(configs.push(config)) == (match quota_of(config) {
                Some(quota) => quotas_of(configs).push(quota),
                None => quotas_of(configs),
            }),
{
    assert forall|configs: Seq<Json>| #[trigger]
        quotas_of(configs.push(config)) == (match quota_of(config) {
            Some(quota) => quotas_of(configs).push(quota),
            None => quotas_of(configs),
        }) by {
        assert(configs.push(config).drop_last() =~= configs);
    }
}

/// A document gives a snapshot if its member `userStatus` is an object. Otherwise a text
/// member `message` is what the server refuses with, and a text member `code` is its code;
/// the code is `error` when there is none. Without a message there is no status at all.
pub proof fn document_gives_status_or_refusal(port: u16, document: Json)
    ensures
        ({
            let status = document.member("userStatus"@);
            let message = text_in(document.member("message"@));
            let code = text_in(document.member("code"@));
            let given = user_status(port, document);
            if status matches Some(Json::Object(_)) {
                given == Ok::<Usage, Refusal>(usage_of(port, status->0))
            } else if message is None {
                given == Err::<Usage, Refusal>(Refusal::NoUserStatus)
            } else if code is None {
                given == Err::<Usage, Refusal>(Refusal::Refused("error"@, message->0))
            } else {
                given == Err::<Usage, Refusal>(Refusal::Refused(code->0, message->0))
            }
        }),
{
}

/// A refusal tells its code and its message.
pub proof fn refusal_tells_code_and_message(code: String, message: String)
    ensures
        UsageError::Refused(code, message).message_text() == "agy GetUserStatus failed ("@ + code@
            + "): "@ + message@,
        UsageError::NoUserStatus.message_text()
            == "GetUserStatus response has no `userStatus` object"@,
{
}

/// What is read of a quota is what it holds.
pub proof fn quota_says_what_it_holds(quota: ModelQuota)
    ensures
        quota@.label == quota.label@,
        quota.remaining_fraction matches Some(text) ==> quota@.remaining_fraction == Some(text@),
        quota.remaining_fraction is None ==> quota@.remaining_fraction is None,
        quota.reset_time matches Some(text) ==> quota@.reset_time == Some(text@),
        quota.reset_time is None ==> quota@.reset_time is None,
{
}

/// What is read of a snapshot is what it holds.
pub proof fn snapshot_says_what_it_holds(usage: AntigravityCliUsage)
    ensures
        usage@.port == usage.port,
        usage.name matches Some(text) ==> usage@.name == Some(text@),
        usage.name is None ==> usage@.name is None,
        usage.email matches Some(text) ==> usage@.email == Some(text@),
        usage.email is None ==> usage@.email is None,
        usage.plan_name matches Some(text) ==> usage@.plan_name == Some(text@),
        usage.plan_name is None ==> usage@.plan_name is None,
        usage.teams_tier matches Some(text) ==> usage@.teams_tier == Some(text@),
        usage.teams_tier is None ==> usage@.teams_tier is None,
        usage@.prompt_credits == usage.prompt_credits,
        usage@.flow_credits == usage.flow_credits,
        usage@.models.len() == usage.models@.len(),
        forall|i: int|
            0 <= i < usage.models@.len() ==> #[trigger] usage@.models[i] == usage.models@[i]@,
{
}

} // verus!
