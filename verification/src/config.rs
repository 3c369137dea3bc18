//! Run configuration.
use crate::binary64::Binary64;
use crate::duration::{Duration, NANOS_PER_SEC};
use crate::text::{self, chars_of, clone_option, clone_texts, same_text};
use vstd::prelude::*;
use vstd::string::*;

pub mod duration_serde;

pub use crate::host::{host_from_server, is_loopback};

verus! {

/// Where a run takes place.
#[derive(Clone, Copy, Debug, PartialEq, Eq, Structural)]
pub enum Environment {
    Local,
    Staging,
    Temporary,
    Production,
}

impl Default for Environment {
    fn default() -> (result: Environment)
        ensures
            result == Environment::Local,
    {
        Environment::Local
    }
}

impl Environment {
    /// The name of the environment.
    pub open spec fn name(self) -> Seq<char> {
        match self {
            Environment::Local => "local"@,
            Environment::Staging => "staging"@,
            Environment::Temporary => "temporary"@,
            Environment::Production => "production"@,
        }
    }

    /// The environment with the given name.
    pub fn from_str(value: &str) -> (result: Result<Environment, String>)
        ensures
            match result {
                Ok(found) => value@ == found.name(),
                Err(message) => {
                    &&& forall|known: Environment| value@ != #[trigger] known.name()
                    &&& message@
                        == "environment must be local, staging, temporary, or production"@
                },
            },
    {
        if same_text(value, "local") {
            Ok(Environment::Local)
        } else if same_text(value, "staging") {
            Ok(Environment::Staging)
        } else if same_text(value, "temporary") {
            Ok(Environment::Temporary)
        } else if same_text(value, "production") {
            Ok(Environment::Production)
        } else {
            Err("environment must be local, staging, temporary, or production".to_owned())
        }
    }
}

/// What kind of run it is.
#[derive(Clone, Copy, Debug, PartialEq, Eq, Structural)]
pub enum Profile {
    Smoke,
    Functional,
    Load,
    Stress,
    Spike,
    Soak,
    Reconnect,
}

impl Default for Profile {
    fn default() -> (result: Profile)
        ensures
            result == Profile::Smoke,
    {
        Profile::Smoke
    }
}

impl Profile {
    /// The name of the profile.
    pub open spec fn name(self) -> Seq<char> {
        match self {
            Profile::Smoke => "smoke"@,
            Profile::Functional => "functional"@,
            Profile::Load => "load"@,
            Profile::Stress => "stress"@,
            Profile::Spike => "spike"@,
            Profile::Soak => "soak"@,
            Profile::Reconnect => "reconnect"@,
        }
    }

    /// The profile with the given name.
    pub fn from_str(value: &str) -> (result: Result<Profile, String>)
        ensures
            match result {
                Ok(found) => value@ == found.name(),
                Err(message) => {
                    &&& forall|known: Profile| value@ != #[trigger] known.name()
                    &&& message@ == "unknown profile"@
                },
            },
    {
        if same_text(value, "smoke") {
            Ok(Profile::Smoke)
        } else if same_text(value, "functional") {
            Ok(Profile::Functional)
        } else if same_text(value, "load") {
            Ok(Profile::Load)
        } else if same_text(value, "stress") {
            Ok(Profile::Stress)
        } else if same_text(value, "spike") {
            Ok(Profile::Spike)
        } else if same_text(value, "soak") {
            Ok(Profile::Soak)
        } else if same_text(value, "reconnect") {
            Ok(Profile::Reconnect)
        } else {
            Err("unknown profile".to_owned())
        }
    }
}

/// The names of environments tell them apart, and so do those of profiles.
pub proof fn law_names_are_distinct(
    environment: Environment,
    other_environment: Environment,
    profile: Profile,
    other_profile: Profile,
)
    ensures
        environment.name() == other_environment.name() ==> environment == other_environment,
        profile.name() == other_profile.name() ==> profile == other_profile,
{
    reveal_strlit("local");
    reveal_strlit("staging");
    reveal_strlit("temporary");
    reveal_strlit("production");
    reveal_strlit("smoke");
    reveal_strlit("functional");
    reveal_strlit("load");
    reveal_strlit("stress");
    reveal_strlit("spike");
    reveal_strlit("soak");
    reveal_strlit("reconnect");
    assert(environment.name()[0] == 'l' || environment.name()[0] == 's' || environment.name()[0]
        == 't' || environment.name()[0] == 'p');
    let p = profile.name();
    let q = other_profile.name();
    assert(p[0] == q[0] || p != q);
    assert(p[1] == q[1] || p != q);
    assert(p[2] == q[2] || p != q);
    assert(p[3] == q[3] || p != q);
    assert(environment.name()[0] == other_environment.name()[0] || environment.name()
        != other_environment.name());
}

/// Whether the operator may test the target.
#[derive(Clone, Copy, Debug, PartialEq, Eq, Structural)]
pub struct AuthorizationConfig {
    pub acknowledged: bool,
}

impl Default for AuthorizationConfig {
    fn default() -> (result: AuthorizationConfig)
        ensures
            !result.acknowledged,
    {
        AuthorizationConfig { acknowledged: false }
    }
}

/// The server to connect to.
#[derive(Clone, Debug)]
pub struct TargetConfig {
    pub server: String,
    pub sni: Option<String>,
}

impl TargetConfig {
    pub open spec fn is_default(self) -> bool {
        self.server@ == "127.0.0.1:8089"@ && self.sni is None
    }
}

impl Default for TargetConfig {
    fn default() -> (result: TargetConfig)
        ensures
            result.is_default(),
    {
        TargetConfig { server: "127.0.0.1:8089".to_owned(), sni: None }
    }
}

/// Certificate material, by the paths of the files that hold it.
#[derive(Clone, Debug)]
pub struct TlsConfig {
    pub enabled: bool,
    pub ca: Option<String>,
    pub client_cert: Option<String>,
    pub client_key: Option<String>,
    pub client_cert_template: Option<String>,
    pub client_key_template: Option<String>,
}

impl Default for TlsConfig {
    fn default() -> (result: TlsConfig)
        ensures
            result.is_default(),
    {
        TlsConfig {
            enabled: false,
            ca: None,
            client_cert: None,
            client_key: None,
            client_cert_template: None,
            client_key_template: None,
        }
    }
}

/// Why the certificate path templates give no paths for a participant.
#[derive(Clone, Copy, Debug, PartialEq, Eq, Structural)]
pub enum TlsTemplateError {
    /// Only one of the two templates is there.
    Unpaired,
    /// There are templates, and client certificate fields too.
    MixedWithGlobalIdentity,
    /// The participant's identifier is not safe in a path.
    UnsafeParticipantId,
}

/// Whether a character may stand in a path: an ASCII letter or digit, `.`, `_` or `-`.
pub open spec fn is_path_char(c: char) -> bool {
    'a' <= c <= 'z' || 'A' <= c <= 'Z' || '0' <= c <= '9' || c == '.' || c == '_' || c == '-'
}

/// Whether an identifier may stand in a path, as a name that is not one of the two special
/// directories.
pub open spec fn is_path_safe(id: Seq<char>) -> bool {
    &&& id.len() > 0
    &&& id != "."@
    &&& id != ".."@
    &&& forall|i: int| 0 <= i < id.len() ==> is_path_char(#[trigger] id[i])
}

/// What a certificate path template holds in place of a participant's identifier.
pub open spec fn placeholder() -> Seq<char> {
    "{participant_id}"@
}

/// A template with the identifier in every place that holds the placeholder.
pub open spec fn resolved(template: Seq<char>, id: Seq<char>) -> Seq<char>
    decreases template.len(),
{
    if template.len() == 0 {
        Seq::empty()
    } else if template.len() >= 16 && template.take(16) == placeholder() {
        id + resolved(template.skip(16), id)
    } else {
        seq![template[0]] + resolved(template.drop_first(), id)
    }
}

/// Whether an identifier may stand in a path.
fn path_safe(id: &str) -> (result: bool)
    ensures
        result == is_path_safe(id@),
{
    let chars = chars_of(id);
    if chars.len() == 0 || same_text(id, ".") || same_text(id, "..") {
        return false;
    }
    let mut i: usize = 0;
    while i < chars.len()
        invariant
            i <= chars.len(),
            chars@ == id@,
            forall|j: int| 0 <= j < i ==> is_path_char(#[trigger] id@[j]),
        decreases chars.len() - i,
    {
        let c = chars[i];
        if !(('a' <= c && c <= 'z') || ('A' <= c && c <= 'Z') || ('0' <= c && c <= '9') || c == '.'
            || c == '_' || c == '-') {
            assert(!is_path_char(id@[i as int]));
            return false;
        }
        i = i + 1;
    }
    true
}

/// Whether the placeholder stands at a position.
fn holds_placeholder(chars: &Vec<char>, at: usize, pattern: &Vec<char>) -> (result: bool)
    requires
        at <= chars.len(),
        pattern@ == placeholder(),
        pattern@.len() == 16,
    ensures
        result == (chars@.skip(at as int).len() >= 16 && chars@.skip(at as int).take(16)
            == placeholder()),
{
    if chars.len() - at < 16 {
        return false;
    }
    let mut i: usize = 0;
    while i < 16
        invariant
            i <= 16,
            at + 16 <= chars.len(),
            pattern@ == placeholder(),
            pattern@.len() == 16,
            forall|j: int| 0 <= j < i ==> chars@[at + j] == pattern@[j],
        decreases 16 - i,
    {
        if chars[at + i] != pattern[i] {
            assert(chars@.skip(at as int).take(16)[i as int] != placeholder()[i as int]);
            return false;
        }
        i = i + 1;
    }
    assert(chars@.skip(at as int).take(16) =~= placeholder());
    true
}

/// Puts the identifier in every place that holds the placeholder.
fn resolve(template: &str, id: &str) -> (result: String)
    ensures
        result@ == resolved(template@, id@),
{
    let chars = chars_of(template);
    let pattern = chars_of("{participant_id}");
    proof {
        reveal_strlit("{participant_id}");
    }
    let mut result = String::new();
    let mut i: usize = 0;
    proof {
        assert(chars@.skip(0) =~= chars@);
        assert(Seq::<char>::empty() + resolved(chars@, id@) =~= resolved(chars@, id@));
    }
    while i < chars.len()
        invariant
            i <= chars.len(),
            chars@ == template@,
            pattern@ == placeholder(),
            pattern@.len() == 16,
            result@ + resolved(chars@.skip(i as int), id@) == resolved(template@, id@),
        decreases chars.len() - i,
    {
        let ghost rest = chars@.skip(i as int);
        let ghost before = result@;
        if holds_placeholder(&chars, i, &pattern) {
            result.append(id);
            proof {
                assert(rest.skip(16) =~= chars@.skip(i + 16));
                assert((before + id@) + resolved(rest.skip(16), id@) =~= before + (id@ + resolved(
                    rest.skip(16),
                    id@,
                )));
            }
            i = i + 16;
        } else {
            let c = chars[i];
            result.push(c);
            proof {
                assert(rest.drop_first() =~= chars@.skip(i + 1));
                assert(rest[0] == c);
                assert(before.push(c) + resolved(rest.drop_first(), id@) =~= before + (seq![c]
                    + resolved(rest.drop_first(), id@)));
            }
            i = i + 1;
        }
    }
    proof {
        assert(chars@.skip(i as int) =~= Seq::<char>::empty());
        assert(result@ + Seq::<char>::empty() =~= result@);
    }
    result
}

impl TlsConfig {
    pub open spec fn is_default(self) -> bool {
        &&& !self.enabled
        &&& self.ca is None
        &&& self.client_cert is None
        &&& self.client_key is None
        &&& self.client_cert_template is None
        &&& self.client_key_template is None
    }

    /// Why the templates give no paths for a participant, if they do not.
    pub open spec fn template_error(self, id: Seq<char>) -> Option<TlsTemplateError> {
        if self.client_cert_template is None && self.client_key_template is None {
            None
        } else if self.client_cert_template is None || self.client_key_template is None {
            Some(TlsTemplateError::Unpaired)
        } else if self.client_cert is Some || self.client_key is Some {
            Some(TlsTemplateError::MixedWithGlobalIdentity)
        } else if !is_path_safe(id) {
            Some(TlsTemplateError::UnsafeParticipantId)
        } else {
            None
        }
    }

    /// The certificate material of one participant: the templates, if there are any, give way to
    /// the paths that they stand for.
    pub fn for_participant(&self, id: &str) -> (result: Result<TlsConfig, TlsTemplateError>)
        ensures
            match result {
                Err(error) => self.template_error(id@) == Some(error),
                Ok(own) => {
                    &&& self.template_error(id@) is None
                    &&& own.enabled == self.enabled
                    &&& text::text_option(own.ca) == text::text_option(self.ca)
                    &&& own.client_cert_template is None && own.client_key_template is None
                    &&& match self.client_cert_template {
                        Some(template) => own.client_cert matches Some(path) && path@ == resolved(
                            template@,
                            id@,
                        ),
                        None => text::text_option(own.client_cert) == text::text_option(
                            self.client_cert,
                        ),
                    }
                    &&& match self.client_key_template {
                        Some(template) => own.client_key matches Some(path) && path@ == resolved(
                            template@,
                            id@,
                        ),
                        None => text::text_option(own.client_key) == text::text_option(
                            self.client_key,
                        ),
                    }
                },
            },
    {
        let ca = clone_option(&self.ca);
        match (&self.client_cert_template, &self.client_key_template) {
            (None, None) => Ok(
                TlsConfig {
                    enabled: self.enabled,
                    ca,
                    client_cert: clone_option(&self.client_cert),
                    client_key: clone_option(&self.client_key),
                    client_cert_template: None,
                    client_key_template: None,
                },
            ),
            (Some(cert), Some(key)) => if self.client_cert.is_some() || self.client_key.is_some() {
                Err(TlsTemplateError::MixedWithGlobalIdentity)
            } else if !path_safe(id) {
                Err(TlsTemplateError::UnsafeParticipantId)
            } else {
                Ok(
                    TlsConfig {
                        enabled: self.enabled,
                        ca,
                        client_cert: Some(resolve(cert.as_str(), id)),
                        client_key: Some(resolve(key.as_str(), id)),
                        client_cert_template: None,
                        client_key_template: None,
                    },
                )
            },
            _ => Err(TlsTemplateError::Unpaired),
        }
    }
}

/// Whether a template holds the placeholder.
pub open spec fn names_participant(template: Seq<char>) -> bool
    decreases template.len(),
{
    if template.len() == 0 {
        false
    } else {
        ||| template.len() >= 16 && template.take(16) == placeholder()
        ||| names_participant(template.drop_first())
    }
}

/// How many characters longer a resolved template is for an identifier that is longer: at least
/// as many, once the template holds the placeholder.
proof fn lemma_resolved_length(template: Seq<char>, a: Seq<char>, b: Seq<char>)
    requires
        a.len() <= b.len(),
    ensures
        resolved(template, a).len() <= resolved(template, b).len(),
        names_participant(template) && a.len() < b.len() ==> resolved(template, a).len() < resolved(
            template,
            b,
        ).len(),
    decreases template.len(),
{
    if template.len() > 0 {
        if template.len() >= 16 && template.take(16) == placeholder() {
            lemma_resolved_length(template.skip(16), a, b);
        } else {
            lemma_resolved_length(template.drop_first(), a, b);
        }
    }
}

/// A text without braces is a template for itself, and what stands before and behind a placeholder
/// stays where it is while the identifier takes its place.
pub proof fn law_identifiers_take_their_place(
    before: Seq<char>,
    after: Seq<char>,
    id: Seq<char>,
)
    requires
        forall|i: int| 0 <= i < before.len() ==> #[trigger] before[i] != '{',
    ensures
        resolved(before, id) == before,
        resolved(before + "{participant_id}"@ + after, id) == before + id + resolved(after, id),
    decreases before.len(),
{
    reveal_strlit("{participant_id}");
    let mark = "{participant_id}"@;
    let whole = before + mark + after;
    if before.len() == 0 {
        assert(whole =~= mark + after);
        assert(whole.take(16) =~= mark);
        assert(whole.skip(16) =~= after);
        assert(before + id + resolved(after, id) =~= id + resolved(after, id));
        assert(before =~= Seq::<char>::empty());
    } else {
        let rest = before.drop_first();
        assert forall|i: int| 0 <= i < rest.len() implies #[trigger] rest[i] != '{' by {
            assert(rest[i] == before[i + 1]);
        }
        law_identifiers_take_their_place(rest, after, id);
        assert(before[0] != '{');
        assert(mark[0] == '{');
        if before.len() >= 16 {
            assert(before.take(16)[0] == before[0]);
        }
        assert(whole[0] == before[0]);
        if whole.len() >= 16 {
            assert(whole.take(16)[0] == whole[0]);
        }
        assert(whole.drop_first() =~= rest + mark + after);
        assert(seq![before[0]] + rest =~= before);
        assert(seq![before[0]] + (rest + id + resolved(after, id)) =~= before + id + resolved(
            after,
            id,
        ));
    }
}

/// Templates give paths for a participant just where there are none, or where both are there,
/// nothing else names a client certificate, and the identifier is a plain name: it is not empty,
/// leads to no other directory and holds ASCII letters, digits, dots, dashes and underscores only.
pub proof fn law_templates_stand_alone(tls: TlsConfig, id: Seq<char>)
    ensures
        tls.template_error(id) is None <==> (tls.client_cert_template is None
            && tls.client_key_template is None) || (tls.client_cert_template is Some
            && tls.client_key_template is Some && tls.client_cert is None && tls.client_key is None
            && is_path_safe(id)),
        tls.template_error(id) == Some(TlsTemplateError::Unpaired) <==> tls.client_cert_template is Some
            != tls.client_key_template is Some,
        tls.template_error(id) == Some(TlsTemplateError::MixedWithGlobalIdentity)
            <==> tls.client_cert_template is Some && tls.client_key_template is Some && (
        tls.client_cert is Some || tls.client_key is Some),
        is_path_safe(id) ==> id.len() > 0 && id != "."@ && id != ".."@ && !id.contains('/')
            && !id.contains('\\') && !id.contains('{') && !id.contains(' '),
        id.len() > 0 && (forall|i: int|
            0 <= i < id.len() ==> 'a' <= #[trigger] id[i] <= 'z' || 'A' <= id[i] <= 'Z' || '0'
                <= id[i] <= '9' || id[i] == '-' || id[i] == '_') ==> is_path_safe(id),
{
    reveal_strlit(".");
    reveal_strlit("..");
    if is_path_safe(id) {
        assert forall|c: char| id.contains(c) implies is_path_char(c) by {
            let k = choose|k: int| 0 <= k < id.len() && id[k] == c;
            assert(is_path_char(id[k]));
        }
    }
    if id.len() > 0 && (forall|i: int|
        0 <= i < id.len() ==> 'a' <= #[trigger] id[i] <= 'z' || 'A' <= id[i] <= 'Z' || '0' <= id[i]
            <= '9' || id[i] == '-' || id[i] == '_') {
        assert(id[0] != '.');
        assert forall|i: int| 0 <= i < id.len() implies is_path_char(#[trigger] id[i]) by {}
    }
}

/// A template that holds the placeholder gives different paths for different identifiers.
pub proof fn law_paths_are_distinct(template: Seq<char>, a: Seq<char>, b: Seq<char>)
    requires
        names_participant(template),
        a != b,
    ensures
        resolved(template, a) != resolved(template, b),
    decreases template.len(),
{
    if a.len() < b.len() {
        lemma_resolved_length(template, a, b);
    } else if a.len() > b.len() {
        lemma_resolved_length(template, b, a);
    } else {
        if template.len() >= 16 && template.take(16) == placeholder() {
            let left = resolved(template, a);
            let right = resolved(template, b);
            assert(left.take(a.len() as int) =~= a);
            assert(right.take(b.len() as int) =~= b);
        } else {
            let rest = template.drop_first();
            law_paths_are_distinct(rest, a, b);
            let left = resolved(template, a);
            let right = resolved(template, b);
            assert(left.skip(1) =~= resolved(rest, a));
            assert(right.skip(1) =~= resolved(rest, b));
        }
    }
}

/// How long a run lasts and how much it sends.
#[derive(Clone, Copy, Debug, PartialEq, Eq, Structural)]
pub struct RunConfig {
    pub profile: Profile,
    pub clients: u32,
    pub max_clients: u32,
    pub duration: Duration,
    pub gps_interval: Duration,
    pub max_rate: Option<Binary64>,
}

impl RunConfig {
    pub open spec fn is_default(self) -> bool {
        &&& self.profile == Profile::Smoke
        &&& self.clients == 1
        &&& self.max_clients == 3
        &&& self.duration@ == 120 * NANOS_PER_SEC
        &&& self.gps_interval@ == 30 * NANOS_PER_SEC
        &&& self.max_rate is None
    }
}

impl Default for RunConfig {
    fn default() -> (result: RunConfig)
        ensures
            result.is_default(),
    {
        RunConfig {
            profile: Profile::Smoke,
            clients: 1,
            max_clients: 3,
            duration: Duration::from_secs(120),
            gps_interval: Duration::from_secs(30),
            max_rate: None,
        }
    }
}

/// How long one operation may take.
#[derive(Clone, Copy, Debug, PartialEq, Eq, Structural)]
pub struct TimeoutConfig {
    pub connect: Duration,
    pub tls_handshake: Duration,
    pub read: Duration,
    pub write: Duration,
}

impl TimeoutConfig {
    pub open spec fn is_default(self) -> bool {
        &&& self.connect@ == 10 * NANOS_PER_SEC
        &&& self.tls_handshake@ == 10 * NANOS_PER_SEC
        &&& self.read@ == 30 * NANOS_PER_SEC
        &&& self.write@ == 10 * NANOS_PER_SEC
    }
}

impl Default for TimeoutConfig {
    fn default() -> (result: TimeoutConfig)
        ensures
            result.is_default(),
    {
        TimeoutConfig {
            connect: Duration::from_secs(10),
            tls_handshake: Duration::from_secs(10),
            read: Duration::from_secs(30),
            write: Duration::from_secs(10),
        }
    }
}

/// The participants that have to be ready before anything is sent, and how long to wait for them.
#[derive(Clone, Debug)]
pub struct SynchronizationConfig {
    pub wait_for_ready: Vec<String>,
    pub timeout: Duration,
}

impl SynchronizationConfig {
    pub open spec fn is_default(self) -> bool {
        self.wait_for_ready@.len() == 0 && self.timeout@ == 30 * NANOS_PER_SEC
    }
}

impl Default for SynchronizationConfig {
    fn default() -> (result: SynchronizationConfig)
        ensures
            result.is_default(),
    {
        SynchronizationConfig { wait_for_ready: Vec::new(), timeout: Duration::from_secs(30) }
    }
}

/// How the participants' starts are spread.
#[derive(Clone, Copy, Debug, PartialEq, Eq, Structural)]
pub enum RampStrategy {
    Immediate,
    Linear,
    Step,
    Randomized,
}

impl Default for RampStrategy {
    fn default() -> (result: RampStrategy)
        ensures
            result == RampStrategy::Immediate,
    {
        RampStrategy::Immediate
    }
}

/// When the participants start.
#[derive(Clone, Debug)]
pub struct SchedulerConfig {
    pub strategy: RampStrategy,
    pub ramp_up: Duration,
    pub ramp_down: Duration,
    pub steps: Vec<RampStep>,
    pub seed: Option<u64>,
}

impl SchedulerConfig {
    pub open spec fn is_default(self) -> bool {
        &&& self.strategy == RampStrategy::Immediate
        &&& self.ramp_up@ == 0
        &&& self.ramp_down@ == 0
        &&& self.steps@.len() == 0
        &&& self.seed is None
    }
}

impl Default for SchedulerConfig {
    fn default() -> (result: SchedulerConfig)
        ensures
            result.is_default(),
    {
        SchedulerConfig {
            strategy: RampStrategy::Immediate,
            ramp_up: Duration::zero(),
            ramp_down: Duration::zero(),
            steps: Vec::new(),
            seed: None,
        }
    }
}

/// How many participants have started at a time.
#[derive(Clone, Copy, Debug, PartialEq, Eq, Structural)]
pub struct RampStep {
    pub at: Duration,
    pub clients: u32,
}

/// Whether, how often and after what pause a participant connects again.
#[derive(Clone, Copy, Debug, PartialEq, Eq, Structural)]
pub struct ReconnectConfig {
    pub enabled: bool,
    pub min_backoff: Duration,
    pub max_backoff: Duration,
    pub max_attempts: u32,
    pub jitter_percent: u8,
}

impl ReconnectConfig {
    pub open spec fn is_default(self) -> bool {
        &&& !self.enabled
        &&& self.min_backoff@ == 250_000_000
        &&& self.max_backoff@ == 30 * NANOS_PER_SEC
        &&& self.max_attempts == 5
        &&& self.jitter_percent == 20
    }
}

impl Default for ReconnectConfig {
    fn default() -> (result: ReconnectConfig)
        ensures
            result.is_default(),
    {
        ReconnectConfig {
            enabled: false,
            min_backoff: Duration::from_millis(250),
            max_backoff: Duration::from_secs(30),
            max_attempts: 5,
            jitter_percent: 20,
        }
    }
}

/// The thresholds that end a run.
#[derive(Clone, Copy, Debug, PartialEq, Eq, Structural)]
pub struct AbortConfig {
    pub connection_error_rate: Option<Binary64>,
    pub message_error_rate: Option<Binary64>,
    pub p95_latency: Option<Duration>,
    pub p99_latency: Option<Duration>,
    pub max_dropped_messages: Option<u64>,
    pub min_samples: Option<u64>,
}

impl AbortConfig {
    pub open spec fn is_default(self) -> bool {
        &&& self.connection_error_rate is None
        &&& self.message_error_rate is None
        &&& self.p95_latency is None
        &&& self.p99_latency is None
        &&& self.max_dropped_messages is None
        &&& self.min_samples is None
    }
}

impl Default for AbortConfig {
    fn default() -> (result: AbortConfig)
        ensures
            result.is_default(),
    {
        AbortConfig {
            connection_error_rate: None,
            message_error_rate: None,
            p95_latency: None,
            p99_latency: None,
            max_dropped_messages: None,
            min_samples: None,
        }
    }
}

/// What a participant does.
#[derive(Clone, Copy, Debug, PartialEq, Eq, Structural)]
pub enum ParticipantRole {
    SendOnly,
    ReceiveOnly,
    SendReceive,
}

impl Default for ParticipantRole {
    fn default() -> (result: ParticipantRole)
        ensures
            result == ParticipantRole::SendReceive,
    {
        ParticipantRole::SendReceive
    }
}

/// One client of the server under test.
#[derive(Debug)]
pub struct ParticipantConfig {
    pub id: String,
    pub role: ParticipantRole,
    pub groups: Vec<String>,
    pub read_delay: Option<Duration>,
    pub pause_read_for: Option<Duration>,
}

/// What a `ParticipantConfig` holds.
pub struct ParticipantView {
    pub id: Seq<char>,
    pub role: ParticipantRole,
    pub groups: Seq<Seq<char>>,
    pub read_delay: Option<Duration>,
    pub pause_read_for: Option<Duration>,
}

impl View for ParticipantConfig {
    type V = ParticipantView;

    open spec fn view(&self) -> ParticipantView {
        ParticipantView {
            id: self.id@,
            role: self.role,
            groups: text::texts(self.groups@),
            read_delay: self.read_delay,
            pause_read_for: self.pause_read_for,
        }
    }
}

/// What a participant holds that has nothing but an identifier.
pub open spec fn plain_participant(id: Seq<char>) -> ParticipantView {
    ParticipantView {
        id,
        role: ParticipantRole::SendReceive,
        groups: Seq::empty(),
        read_delay: None,
        pause_read_for: None,
    }
}

impl Default for ParticipantConfig {
    fn default() -> (result: ParticipantConfig)
        ensures
            result@ == plain_participant(Seq::empty()),
    {
        let result = ParticipantConfig {
            id: String::new(),
            role: ParticipantRole::SendReceive,
            groups: Vec::new(),
            read_delay: None,
            pause_read_for: None,
        };
        assert(text::texts(result.groups@) =~= Seq::empty());
        result
    }
}

impl Clone for ParticipantConfig {
    fn clone(&self) -> (copy: ParticipantConfig)
        ensures
            copy@ == self@,
    {
        ParticipantConfig {
            id: self.id.clone(),
            role: self.role,
            groups: clone_texts(&self.groups),
            read_delay: self.read_delay,
            pause_read_for: self.pause_read_for,
        }
    }
}

/// What is sent.
#[derive(Clone, Copy, Debug, PartialEq, Eq, Structural)]
pub enum ScenarioKind {
    Position,
    Marker,
    Chat,
}

impl Default for ScenarioKind {
    fn default() -> (result: ScenarioKind)
        ensures
            result == ScenarioKind::Position,
    {
        ScenarioKind::Position
    }
}

/// How the positions that are sent move.
#[derive(Clone, Copy, Debug, PartialEq, Eq, Structural)]
pub enum Movement {
    Fixed,
    RandomWalk,
    Line,
    Circle,
    Route,
    GeojsonRoute,
}

impl Default for Movement {
    fn default() -> (result: Movement)
        ensures
            result == Movement::Fixed,
    {
        Movement::Fixed
    }
}

/// Who has to receive, and who must not receive, what a participant sends.
#[derive(Clone, Debug)]
pub struct RoutingAssertion {
    pub sender: String,
    pub receivers: Vec<String>,
    pub forbidden_receivers: Vec<String>,
    pub timeout: Option<Duration>,
}

impl RoutingAssertion {
    pub open spec fn is_default(self) -> bool {
        &&& self.sender@.len() == 0
        &&& self.receivers@.len() == 0
        &&& self.forbidden_receivers@.len() == 0
        &&& self.timeout is None
    }
}

impl Default for RoutingAssertion {
    fn default() -> (result: RoutingAssertion)
        ensures
            result.is_default(),
    {
        RoutingAssertion {
            sender: String::new(),
            receivers: Vec::new(),
            forbidden_receivers: Vec::new(),
            timeout: None,
        }
    }
}

/// How the bytes that are sent are put into writes.
#[derive(Clone, Debug)]
pub struct FragmentationConfig {
    pub chunk_sizes: Vec<usize>,
    pub events_per_write: usize,
}

impl FragmentationConfig {
    pub open spec fn is_default(self) -> bool {
        self.chunk_sizes@.len() == 0 && self.events_per_write == 1
    }
}

impl Default for FragmentationConfig {
    fn default() -> (result: FragmentationConfig)
        ensures
            result.is_default(),
    {
        FragmentationConfig { chunk_sizes: Vec::new(), events_per_write: 1 }
    }
}

/// In what way an event is made invalid.
#[derive(Clone, Copy, Debug, PartialEq, Eq, Structural)]
pub enum InvalidEventKind {
    MalformedXml,
    UnterminatedXml,
    OversizedFrame,
    InvalidCoordinates,
    InvalidTime,
}

/// Whether, and how many, invalid events are sent.
#[derive(Clone, Copy, Debug, PartialEq, Eq, Structural)]
pub struct InvalidScenarioConfig {
    pub enabled: bool,
    pub kind: Option<InvalidEventKind>,
    pub max_events: Option<u32>,
}

impl InvalidScenarioConfig {
    pub open spec fn is_default(self) -> bool {
        !self.enabled && self.kind is None && self.max_events is None
    }
}

impl Default for InvalidScenarioConfig {
    fn default() -> (result: InvalidScenarioConfig)
        ensures
            result.is_default(),
    {
        InvalidScenarioConfig { enabled: false, kind: None, max_events: None }
    }
}

/// Whether, and how long, a participant waits between connecting and its first write.
#[derive(Clone, Copy, Debug, PartialEq, Eq, Structural)]
pub struct SlowConnectConfig {
    pub enabled: bool,
    pub initial_write_delay: Duration,
}

impl SlowConnectConfig {
    pub open spec fn is_default(self) -> bool {
        !self.enabled && self.initial_write_delay@ == 0
    }
}

impl Default for SlowConnectConfig {
    fn default() -> (result: SlowConnectConfig)
        ensures
            result.is_default(),
    {
        SlowConnectConfig { enabled: false, initial_write_delay: Duration::zero() }
    }
}

/// Whether, and after how many events, a participant drops its connection.
#[derive(Clone, Copy, Debug, PartialEq, Eq, Structural)]
pub struct AbruptDisconnectConfig {
    pub enabled: bool,
    pub after_events: u32,
}

impl AbruptDisconnectConfig {
    pub open spec fn is_default(self) -> bool {
        !self.enabled && self.after_events == 0
    }
}

impl Default for AbruptDisconnectConfig {
    fn default() -> (result: AbruptDisconnectConfig)
        ensures
            result.is_default(),
    {
        AbruptDisconnectConfig { enabled: false, after_events: 0 }
    }
}

/// What the participants do.
#[derive(Clone, Debug)]
pub struct ScenarioConfig {
    pub kind: ScenarioKind,
    pub movement: Movement,
    pub routing: Vec<RoutingAssertion>,
    pub fragmentation: FragmentationConfig,
    pub invalid: InvalidScenarioConfig,
    pub slow_connect: SlowConnectConfig,
    pub abrupt_disconnect: AbruptDisconnectConfig,
}

impl ScenarioConfig {
    pub open spec fn is_default(self) -> bool {
        &&& self.kind == ScenarioKind::Position
        &&& self.movement == Movement::Fixed
        &&& self.routing@.len() == 0
        &&& self.fragmentation.is_default()
        &&& self.invalid.is_default()
        &&& self.slow_connect.is_default()
        &&& self.abrupt_disconnect.is_default()
    }
}

impl Default for ScenarioConfig {
    fn default() -> (result: ScenarioConfig)
        ensures
            result.is_default(),
    {
        ScenarioConfig {
            kind: ScenarioKind::Position,
            movement: Movement::Fixed,
            routing: Vec::new(),
            fragmentation: FragmentationConfig { chunk_sizes: Vec::new(), events_per_write: 1 },
            invalid: InvalidScenarioConfig { enabled: false, kind: None, max_events: None },
            slow_connect: SlowConnectConfig {
                enabled: false,
                initial_write_delay: Duration::zero(),
            },
            abrupt_disconnect: AbruptDisconnectConfig { enabled: false, after_events: 0 },
        }
    }
}

/// Where the outcome of a run goes: the path of the report, and whether lifecycle events are
/// told.
#[derive(Clone, Debug)]
pub struct OutputConfig {
    pub json: Option<String>,
    pub lifecycle_jsonl: bool,
}

impl OutputConfig {
    pub open spec fn is_default(self) -> bool {
        self.json is None && !self.lifecycle_jsonl
    }
}

impl Default for OutputConfig {
    fn default() -> (result: OutputConfig)
        ensures
            result.is_default(),
    {
        OutputConfig { json: None, lifecycle_jsonl: false }
    }
}

/// All that a run is told.
#[derive(Clone, Debug)]
pub struct AppConfig {
    pub version: u32,
    pub authorization: AuthorizationConfig,
    pub environment: Environment,
    pub allow_hosts: Vec<String>,
    pub target: TargetConfig,
    pub tls: TlsConfig,
    pub run: RunConfig,
    pub timeouts: TimeoutConfig,
    pub synchronization: SynchronizationConfig,
    pub scheduler: SchedulerConfig,
    pub reconnect: ReconnectConfig,
    pub abort: AbortConfig,
    pub participants: Vec<ParticipantConfig>,
    pub scenario: ScenarioConfig,
    pub output: OutputConfig,
}

impl AppConfig {
    pub open spec fn is_default(self) -> bool {
        &&& self.version == 0
        &&& !self.authorization.acknowledged
        &&& self.environment == Environment::Local
        &&& self.allow_hosts@.len() == 0
        &&& self.target.is_default()
        &&& self.tls.is_default()
        &&& self.run.is_default()
        &&& self.timeouts.is_default()
        &&& self.synchronization.is_default()
        &&& self.scheduler.is_default()
        &&& self.reconnect.is_default()
        &&& self.abort.is_default()
        &&& self.participants@.len() == 0
        &&& self.scenario.is_default()
        &&& self.output.is_default()
    }
}

impl Default for AppConfig {
    fn default() -> (result: AppConfig)
        ensures
            result.is_default(),
    {
        AppConfig {
            version: 0,
            authorization: AuthorizationConfig::default(),
            environment: Environment::Local,
            allow_hosts: Vec::new(),
            target: TargetConfig::default(),
            tls: TlsConfig::default(),
            run: RunConfig::default(),
            timeouts: TimeoutConfig::default(),
            synchronization: SynchronizationConfig::default(),
            scheduler: SchedulerConfig::default(),
            reconnect: ReconnectConfig::default(),
            abort: AbortConfig::default(),
            participants: Vec::new(),
            scenario: ScenarioConfig::default(),
            output: OutputConfig::default(),
        }
    }
}

/// The identifier of the participant at a position, where participants are not named.
pub open spec fn default_id(index: nat) -> Seq<char> {
    "client-"@ + text::decimal_text(index)
}

/// The participants of a run: those that the configuration names, or else as many as it wants
/// clients.
pub open spec fn participants_of(config: AppConfig) -> Seq<ParticipantView> {
    if config.participants@.len() > 0 {
        Seq::new(config.participants@.len(), |i: int| config.participants@[i]@)
    } else {
        Seq::new(config.run.clients as nat, |i: int| plain_participant(default_id(i as nat)))
    }
}

/// Why a configuration cannot be read.
#[derive(Debug)]
pub enum ConfigError {
    /// A text that denotes no duration.
    Duration(String),
}

} // verus!
