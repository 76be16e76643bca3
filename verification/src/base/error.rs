//! The error type of the library.
use crate::base::text::{decimal, push_decimal};
use vstd::prelude::*;
use vstd::string::{to_string_from_display_ensures, StringExecFns};

verus! {

/// `std::io::Error`, carried unopened inside [`FractureError::Io`].
#[verifier::external_type_specification]
#[verifier::external_body]
pub struct ExIoError(std::io::Error);

/// The result type of fallible operations.
pub type Result<T> = core::result::Result<T, FractureError>;

/// What can go wrong.
#[derive(Debug)]
pub enum FractureError {
    Backend(String),
    OutOfMemory { requested: usize, available: usize },
    InvalidShape(String),
    TensorNotFound(String),
    ModelConfig(String),
    GgufParse(String),
    WeightLoad(String),
    KvCache(String),
    Generation(String),
    Tokenizer(String),
    Server(String),
    Pipeline(String),
    Protocol(String),
    UnsupportedDType(String),
    Io(std::io::Error),
}

impl FractureError {
    /// `text` is the message that [`FractureError::to_string`] gives.
    ///
    /// The text of an I/O error is the one its own `to_string` gives.
    pub open spec fn reads(&self, text: Seq<char>) -> bool {
        match self {
            FractureError::Backend(m) => text == "backend error: "@ + m@,
            FractureError::OutOfMemory { requested, available } => text
                == "out of device memory: requested "@ + decimal(*requested as nat)
                + " bytes, available "@ + decimal(*available as nat) + " bytes"@,
            FractureError::InvalidShape(m) => text == "invalid tensor shape: "@ + m@,
            FractureError::TensorNotFound(m) => text == "tensor not found: "@ + m@,
            FractureError::ModelConfig(m) => text == "model config error: "@ + m@,
            FractureError::GgufParse(m) => text == "GGUF parse error: "@ + m@,
            FractureError::WeightLoad(m) => text == "weight loading error: "@ + m@,
            FractureError::KvCache(m) => text == "KV cache error: "@ + m@,
            FractureError::Generation(m) => text == "generation error: "@ + m@,
            FractureError::Tokenizer(m) => text == "tokenizer error: "@ + m@,
            FractureError::Server(m) => text == "server error: "@ + m@,
            FractureError::Pipeline(m) => text == "pipeline error: "@ + m@,
            FractureError::Protocol(m) => text == "protocol error: "@ + m@,
            FractureError::UnsupportedDType(m) => text == "unsupported dtype: "@ + m@,
            FractureError::Io(e) => exists|t: String|
                to_string_from_display_ensures::<std::io::Error>(e, t) && text == "io error: "@
                    + #[trigger] t@,
        }
    }

    /// A shape error with this message.
    pub open spec fn is_invalid_shape(&self, text: Seq<char>) -> bool {
        self matches FractureError::InvalidShape(m) && m@ == text
    }

    /// A configuration error with this message.
    pub open spec fn is_model_config(&self, text: Seq<char>) -> bool {
        self matches FractureError::ModelConfig(m) && m@ == text
    }

    /// A cache error with this message.
    pub open spec fn is_kv_cache(&self, text: Seq<char>) -> bool {
        self matches FractureError::KvCache(m) && m@ == text
    }

    /// A pipeline error with this message.
    pub open spec fn is_pipeline(&self, text: Seq<char>) -> bool {
        self matches FractureError::Pipeline(m) && m@ == text
    }

    /// A protocol error with this message.
    pub open spec fn is_protocol(&self, text: Seq<char>) -> bool {
        self matches FractureError::Protocol(m) && m@ == text
    }

    /// A device error with this message.
    pub open spec fn is_backend(&self, text: Seq<char>) -> bool {
        self matches FractureError::Backend(m) && m@ == text
    }

    /// The message of the error: the kind of the failure and its details.
    pub fn to_string(&self) -> (res: String)
        ensures
            self.reads(res@),
    {
        match self {
            FractureError::Backend(m) => "backend error: ".to_owned().concat(m.as_str()),
            FractureError::OutOfMemory { requested, available } => {
                let mut s: String = "out of device memory: requested ".to_owned();
                push_decimal(&mut s, *requested as u64);
                s.append(" bytes, available ");
                push_decimal(&mut s, *available as u64);
                s.append(" bytes");
                s
            },
            FractureError::InvalidShape(m) => "invalid tensor shape: ".to_owned().concat(
                m.as_str(),
            ),
            FractureError::TensorNotFound(m) => "tensor not found: ".to_owned().concat(m.as_str()),
            FractureError::ModelConfig(m) => "model config error: ".to_owned().concat(m.as_str()),
            FractureError::GgufParse(m) => "GGUF parse error: ".to_owned().concat(m.as_str()),
            FractureError::WeightLoad(m) => "weight loading error: ".to_owned().concat(m.as_str()),
            FractureError::KvCache(m) => "KV cache error: ".to_owned().concat(m.as_str()),
            FractureError::Generation(m) => "generation error: ".to_owned().concat(m.as_str()),
            FractureError::Tokenizer(m) => "tokenizer error: ".to_owned().concat(m.as_str()),
            FractureError::Server(m) => "server error: ".to_owned().concat(m.as_str()),
            FractureError::Pipeline(m) => "pipeline error: ".to_owned().concat(m.as_str()),
            FractureError::Protocol(m) => "protocol error: ".to_owned().concat(m.as_str()),
            FractureError::UnsupportedDType(m) => "unsupported dtype: ".to_owned().concat(
                m.as_str(),
            ),
            FractureError::Io(e) => {
                let text: String = e.to_string();
                "io error: ".to_owned().concat(text.as_str())
            },
        }
    }
}

impl From<std::io::Error> for FractureError {
    fn from(e: std::io::Error) -> (res: Self) {
        FractureError::Io(e)
    }
}

impl vstd::std_specs::convert::FromSpecImpl<std::io::Error> for FractureError {
    open spec fn obeys_from_spec() -> bool {
        true
    }

    open spec fn from_spec(e: std::io::Error) -> Self {
        FractureError::Io(e)
    }
}

/// Why generation stopped.
#[derive(Debug, Clone, Copy, PartialEq, Eq, Structural)]
pub enum StopReason {
    /// Hit an EOS/stop token.
    Stop,
    /// Reached max_tokens limit.
    Length,
}

} // verus!
