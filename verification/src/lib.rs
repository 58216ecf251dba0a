//! Core wire-format logic for a federated-chat protocol: a typed envelope
//! codec over JSON objects tagged with a discriminator string, generic
//! field-extraction helpers with precise error reporting, and a grammar
//! validator for host specifiers used as server identities.

pub mod direct;
pub mod event;
pub mod json;
pub mod server_name;
pub mod util;

pub use direct::DirectEvent;
pub use direct::DirectEventContent;
pub use event::BasicEvent;
pub use event::EventContent;

pub use json::JsonModel;
pub use json::JsonValue;
pub use server_name::is_valid_server_name;
pub use util::DecodeError;
pub use util::JsonCodec;
pub use util::get_field;
pub use util::try_variant_from_value;
