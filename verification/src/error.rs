//! Error types

use std::any::TypeId;
use vstd::prelude::*;
use vstd::string::*;

verus! {

/// ECS error type
#[derive(Debug, Clone)]
pub enum EcsError {
    /// Entity not found
    EntityNotFound,
    /// Component not found
    ComponentNotFound,
    /// Archetype not found
    ArchetypeNotFound,
    /// Invalid entity ID
    InvalidEntity,
    /// Command buffer error
    CommandError(String),
    /// System cycle detected
    SystemCycleDetected,
    /// Schedule error
    ScheduleError(String),
    /// System not found
    SystemNotFound,
    /// Event queue overflow
    EventQueueOverflow,
    /// Serialization error
    SerializationError(String),
    /// Deserialization error
    DeserializationError(String),
    /// Resource not found
    ResourceNotFound(String),
    /// Resource load error
    ResourceLoadError(String),
    /// Resource memory overflow
    ResourceMemoryOverflow(String),
    /// Resource deallocation error
    ResourceDeallocError(String),
    /// Asset load error
    AssetLoadError(String),
    /// Asset not found
    AssetNotFound(String),
    /// Batch size too large (possible DoS attack)
    BatchTooLarge,
    /// Hierarchy operation error (cycle, self-attach, etc.)
    HierarchyError(String),
    /// Resource already exists (init_resource failed)
    ResourceAlreadyExists(TypeId),
    /// IO error (file operations, etc.)
    IoError(String),
    /// Spawn error with detailed context
    SpawnError(SpawnError),
}

/// Detailed spawn error types
#[derive(Debug, Clone)]
pub enum SpawnError {
    /// Entity capacity exhausted
    EntityCapacityExhausted { attempted: usize, capacity: usize },
    /// Component registration failed
    ComponentRegistrationFailed(String),
    /// Archetype creation failed
    ArchetypeCreationFailed { component_count: usize, reason: String },
}

impl From<SpawnError> for EcsError {
    fn from(err: SpawnError) -> (r: Self)
        ensures
            r == EcsError::SpawnError(err),
    {
        EcsError::SpawnError(err)
    }
}

impl vstd::std_specs::convert::FromSpecImpl<SpawnError> for EcsError {
    open spec fn obeys_from_spec() -> bool {
        true
    }

    open spec fn from_spec(v: SpawnError) -> EcsError {
        EcsError::SpawnError(v)
    }
}

/// Result type alias
pub type Result<T> = std::result::Result<T, EcsError>;

/// The decimal digits of `n`, most significant first.
pub open spec fn decimal(n: nat) -> Seq<char>
    decreases n,
{
    if n < 10 {
        seq![digit_char(n)]
    } else {
        decimal(n / 10).push(digit_char(n % 10))
    }
}

/// The character of a decimal digit.
pub open spec fn digit_char(d: nat) -> char {
    if d == 0 { '0' } else if d == 1 { '1' } else if d == 2 { '2' } else if d == 3 { '3' } else if d == 4 {
        '4'
    } else if d == 5 { '5' } else if d == 6 { '6' } else if d == 7 { '7' } else if d == 8 { '8' } else { '9' }
}

/// The one-character text of a decimal digit.
fn digit_str(d: usize) -> (s: &'static str)
    requires
        d < 10,
    ensures
        s@ == seq![digit_char(d as nat)],
{
    proof {
        reveal_strlit("0");
        reveal_strlit("1");
        reveal_strlit("2");
        reveal_strlit("3");
        reveal_strlit("4");
        reveal_strlit("5");
        reveal_strlit("6");
        reveal_strlit("7");
        reveal_strlit("8");
        reveal_strlit("9");
    }
    if d == 0 {
        let s = "0";
        assert(s@ =~= seq!['0']);
        s
    } else if d == 1 {
        let s = "1";
        assert(s@ =~= seq!['1']);
        s
    } else if d == 2 {
        let s = "2";
        assert(s@ =~= seq!['2']);
        s
    } else if d == 3 {
        let s = "3";
        assert(s@ =~= seq!['3']);
        s
    } else if d == 4 {
        let s = "4";
        assert(s@ =~= seq!['4']);
        s
    } else if d == 5 {
        let s = "5";
        assert(s@ =~= seq!['5']);
        s
    } else if d == 6 {
        let s = "6";
        assert(s@ =~= seq!['6']);
        s
    } else if d == 7 {
        let s = "7";
        assert(s@ =~= seq!['7']);
        s
    } else if d == 8 {
        let s = "8";
        assert(s@ =~= seq!['8']);
        s
    } else {
        let s = "9";
        assert(s@ =~= seq!['9']);
        s
    }
}

/// The decimal digits of a count, without sign, padding or separators, as
/// `usize`'s `Display` writes them.
pub(crate) fn decimal_string(n: usize) -> (text: String)
    ensures
        text@ == decimal(n as nat),
{
    let mut text = String::from_str(digit_str(n % 10));
    let mut rest: usize = n / 10;
    proof {
        if n >= 10 {
            assert(decimal(n as nat) == decimal((n / 10) as nat).push(digit_char((n % 10) as nat)));
            assert(decimal((n / 10) as nat).push(digit_char((n % 10) as nat)) =~= decimal(rest as nat) + text@);
        }
    }
    while rest > 0
        invariant
            rest > 0 ==> decimal(n as nat) == decimal(rest as nat) + text@,
            rest == 0 ==> decimal(n as nat) == text@,
        decreases rest,
    {
        let ghost old_text = text@;
        let d = digit_str(rest % 10);
        text = String::from_str(d).concat(text.as_str());
        proof {
            assert(text@ == seq![digit_char((rest % 10) as nat)] + old_text);
            if rest >= 10 {
                assert(decimal(rest as nat) == decimal((rest / 10) as nat).push(digit_char((rest % 10) as nat)));
                assert(decimal((rest / 10) as nat).push(digit_char((rest % 10) as nat)) + old_text =~= decimal((rest / 10) as nat) + text@);
            } else {
                assert(decimal(rest as nat) == seq![digit_char(rest as nat)]);
                assert(seq![digit_char(rest as nat)] + old_text =~= text@);
            }
        }
        rest = rest / 10;
    }
    text
}

/// Writes a `TypeId` with its `Debug` implementation. What it prints depends
/// on the identifier the compiler chose, so nothing is claimed of the text.
#[verifier::external_body]
fn type_id_text(type_id: &TypeId) -> String {
    format!("{type_id:?}")
}

/// `text` followed by `rest`.
fn joined(text: &str, rest: &str) -> (r: String)
    ensures
        r@ == text@ + rest@,
{
    String::from_str(text).concat(rest)
}

impl SpawnError {
    /// The error's message.
    pub fn message(&self) -> (r: String)
        ensures
            r@ == spawn_error_text(*self),
    {
        match self {
            SpawnError::EntityCapacityExhausted { attempted, capacity } => {
                let a = decimal_string(*attempted);
                let c = decimal_string(*capacity);
                joined("Entity capacity exhausted: attempted to spawn ", a.as_str()).concat(", max is ").concat(c.as_str())
            },
            SpawnError::ComponentRegistrationFailed(reason) => joined("Failed to register component: ", reason.as_str()),
            SpawnError::ArchetypeCreationFailed { component_count, reason } => {
                let n = decimal_string(*component_count);
                joined("Failed to create archetype for ", n.as_str()).concat(" components: ").concat(reason.as_str())
            },
        }
    }
}

/// The message of a spawn error.
pub open spec fn spawn_error_text(e: SpawnError) -> Seq<char> {
    match e {
        SpawnError::EntityCapacityExhausted { attempted, capacity } => "Entity capacity exhausted: attempted to spawn "@
            + decimal(attempted as nat) + ", max is "@ + decimal(capacity as nat),
        SpawnError::ComponentRegistrationFailed(reason) => "Failed to register component: "@ + reason@,
        SpawnError::ArchetypeCreationFailed { component_count, reason } => "Failed to create archetype for "@ + decimal(
            component_count as nat,
        ) + " components: "@ + reason@,
    }
}

/// The message of an error. For `ResourceAlreadyExists` only the text before
/// the type's identifier is fixed here.
pub open spec fn error_text(e: EcsError) -> Seq<char> {
    match e {
        EcsError::EntityNotFound => "Entity not found"@,
        EcsError::ComponentNotFound => "Component not found"@,
        EcsError::ArchetypeNotFound => "Archetype not found"@,
        EcsError::InvalidEntity => "Invalid entity ID"@,
        EcsError::CommandError(msg) => "Command error: "@ + msg@,
        EcsError::SystemCycleDetected => "System dependency cycle detected"@,
        EcsError::ScheduleError(msg) => "Schedule error: "@ + msg@,
        EcsError::SystemNotFound => "System not found"@,
        EcsError::EventQueueOverflow => "Event queue overflow"@,
        EcsError::SerializationError(msg) => "Serialization error: "@ + msg@,
        EcsError::DeserializationError(msg) => "Deserialization error: "@ + msg@,
        EcsError::ResourceNotFound(msg) => "Resource not found: "@ + msg@,
        EcsError::ResourceLoadError(msg) => "Resource load error: "@ + msg@,
        EcsError::ResourceMemoryOverflow(msg) => "Resource memory overflow: "@ + msg@,
        EcsError::ResourceDeallocError(msg) => "Resource deallocation error: "@ + msg@,
        EcsError::AssetLoadError(msg) => "Asset load error: "@ + msg@,
        EcsError::AssetNotFound(msg) => "Asset not found: "@ + msg@,
        EcsError::BatchTooLarge => "Batch size too large (max 10,000,000)"@,
        EcsError::HierarchyError(msg) => "Hierarchy error: "@ + msg@,
        EcsError::ResourceAlreadyExists(_) => "Resource already exists: "@,
        EcsError::IoError(msg) => "IO error: "@ + msg@,
        EcsError::SpawnError(err) => "Spawn error: "@ + spawn_error_text(err),
    }
}

impl EcsError {
    /// The error's message.
    pub fn message(&self) -> (r: String)
        ensures
            !(*self is ResourceAlreadyExists) ==> r@ == error_text(*self),
            *self is ResourceAlreadyExists ==> r@.len() >= error_text(*self).len()
                && r@.subrange(0, error_text(*self).len() as int) == error_text(*self),
    {
        match self {
            EcsError::EntityNotFound => String::from_str("Entity not found"),
            EcsError::ComponentNotFound => String::from_str("Component not found"),
            EcsError::ArchetypeNotFound => String::from_str("Archetype not found"),
            EcsError::InvalidEntity => String::from_str("Invalid entity ID"),
            EcsError::CommandError(msg) => joined("Command error: ", msg.as_str()),
            EcsError::SystemCycleDetected => String::from_str("System dependency cycle detected"),
            EcsError::ScheduleError(msg) => joined("Schedule error: ", msg.as_str()),
            EcsError::SystemNotFound => String::from_str("System not found"),
            EcsError::EventQueueOverflow => String::from_str("Event queue overflow"),
            EcsError::SerializationError(msg) => joined("Serialization error: ", msg.as_str()),
            EcsError::DeserializationError(msg) => joined("Deserialization error: ", msg.as_str()),
            EcsError::ResourceNotFound(msg) => joined("Resource not found: ", msg.as_str()),
            EcsError::ResourceLoadError(msg) => joined("Resource load error: ", msg.as_str()),
            EcsError::ResourceMemoryOverflow(msg) => joined("Resource memory overflow: ", msg.as_str()),
            EcsError::ResourceDeallocError(msg) => joined("Resource deallocation error: ", msg.as_str()),
            EcsError::AssetLoadError(msg) => joined("Asset load error: ", msg.as_str()),
            EcsError::AssetNotFound(msg) => joined("Asset not found: ", msg.as_str()),
            EcsError::BatchTooLarge => String::from_str("Batch size too large (max 10,000,000)"),
            EcsError::HierarchyError(msg) => joined("Hierarchy error: ", msg.as_str()),
            EcsError::ResourceAlreadyExists(type_id) => {
                let id = type_id_text(type_id);
                let r = joined("Resource already exists: ", id.as_str());
                assert(r@.subrange(0, error_text(*self).len() as int) =~= error_text(*self));
                r
            },
            EcsError::IoError(msg) => joined("IO error: ", msg.as_str()),
            EcsError::SpawnError(err) => {
                let inner = err.message();
                joined("Spawn error: ", inner.as_str())
            },
        }
    }
}

} // verus!
