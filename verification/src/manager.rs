//! The file-based memory manager: path layout for the global and
//! per-chat notes files, and composition of their contents into an
//! XML-tagged context string. Reading and writing the files themselves
//! is I/O and happens outside the library; the composition logic here
//! takes the file contents as plain values.

use vstd::prelude::*;

verus! {

use crate::text::all_ws;
use crate::text::hex_char;
use vstd::string::StringExecFns;
use vstd::string::StrSliceExecFns;

/// The decimal digits of a number, most significant first.
pub open spec fn dec_str(n: nat) -> Seq<char>
    decreases n,
{
    if n < 10 {
        seq![hex_char(n as int)]
    } else {
        dec_str(n / 10).push(hex_char((n % 10) as int))
    }
}

/// The decimal rendering of a signed number: a minus sign and the
/// digits of its magnitude.
pub open spec fn dec_i64(n: int) -> Seq<char> {
    if n < 0 {
        seq!['-'] + dec_str((-n) as nat)
    } else {
        dec_str(n as nat)
    }
}

fn digit_str(d: u64) -> (r: &'static str)
    requires
        d < 10,
    ensures
        r@.len() == 1,
        r@[0] == hex_char(d as int),
{
    proof {
        reveal_strlit("0");
        reveal_strlit("1");
        reveal_strlit("2");
        reveal_strlit("3");
        reveal_strlit("4");
        reveal_strlit("5");
        reveal_strlit("6");
        reveal_strlit("7");
        reveal_strlit("8");
        reveal_strlit("9");
    }
    if d == 0 {
        "0"
    } else if d == 1 {
        "1"
    } else if d == 2 {
        "2"
    } else if d == 3 {
        "3"
    } else if d == 4 {
        "4"
    } else if d == 5 {
        "5"
    } else if d == 6 {
        "6"
    } else if d == 7 {
        "7"
    } else if d == 8 {
        "8"
    } else {
        "9"
    }
}

/// Render an unsigned number in decimal.
pub fn dec_u64_string(n: u64) -> (r: String)
    ensures
        r@ == dec_str(n as nat),
{
    if n == 0 {
        let r = String::from_str(digit_str(0));
        proof {
            assert(r@ =~~= dec_str(0));
        }
        return r;
    }
    let mut m: u64 = n;
    let mut r = String::new();
    while m > 0
        invariant
            m > 0 ==> dec_str(n as nat) == dec_str(m as nat) + r@,
            m == 0 ==> dec_str(n as nat) == r@,
        decreases m,
    {
        let d: u64 = m % 10;
        let ds = digit_str(d);
        let r2 = String::from_str(ds).concat(r.as_str());
        proof {
            if m >= 10 {
                assert(dec_str(m as nat) == dec_str((m / 10) as nat).push(
                    hex_char((m % 10) as int),
                ));
                assert(dec_str((m / 10) as nat).push(hex_char(d as int)) + r@ =~~= dec_str(
                    (m / 10) as nat,
                ) + r2@);
            } else {
                assert(dec_str(m as nat) =~~= ds@);
                assert(dec_str(m as nat) + r@ =~~= r2@);
            }
        }
        r = r2;
        m = m / 10;
    }
    r
}

/// Render a signed number in decimal.
pub fn dec_i64_string(n: i64) -> (r: String)
    ensures
        r@ == dec_i64(n as int),
{
    if n >= 0 {
        dec_u64_string(n as u64)
    } else {
        let mag: u64 = (-(n as i128)) as u64;
        let digits = dec_u64_string(mag);
        let r = String::from_str("-").concat(digits.as_str());
        proof {
            reveal_strlit("-");
            assert(r@ =~~= dec_i64(n as int));
        }
        r
    }
}

/// The composed memory context: each present, non-blank notes file is
/// wrapped in its tag; blank or absent files contribute nothing.
pub open spec fn context_spec(global: Option<Seq<char>>, chat: Option<Seq<char>>) -> Seq<char> {
    (match global {
        Some(g) => if !all_ws(g) {
            "<global_memory>\n"@ + g + "\n</global_memory>\n\n"@
        } else {
            Seq::<char>::empty()
        },
        None => Seq::<char>::empty(),
    }) + (match chat {
        Some(c) => if !all_ws(c) {
            "<chat_memory>\n"@ + c + "\n</chat_memory>\n\n"@
        } else {
            Seq::<char>::empty()
        },
        None => Seq::<char>::empty(),
    })
}

/// File-based memory manager for the notes files.
pub struct MemoryManager {
    pub data_dir: String,
}

impl MemoryManager {
    /// A manager rooted at the groups directory under `data_dir`.
    pub fn new(data_dir: &str) -> (r: Self)
        ensures
            r.data_dir@ == data_dir@ + "/groups"@,
    {
        MemoryManager { data_dir: String::from_str(data_dir).concat("/groups") }
    }

    /// The directory that holds all notes files.
    pub fn groups_dir(&self) -> (r: &String)
        ensures
            r@ == self.data_dir@,
    {
        &self.data_dir
    }

    /// Path of the global notes file.
    pub fn global_memory_path(&self) -> (r: String)
        ensures
            r@ == self.data_dir@ + "/AGENTS.md"@,
    {
        self.data_dir.clone().concat("/AGENTS.md")
    }

    /// Path of a chat's notes file.
    pub fn chat_memory_path(&self, chat_id: i64) -> (r: String)
        ensures
            r@ == self.data_dir@ + "/"@ + dec_i64(chat_id as int) + "/AGENTS.md"@,
    {
        let digits = dec_i64_string(chat_id);
        self.data_dir.clone().concat("/").concat(digits.as_str()).concat("/AGENTS.md")
    }

    /// Compose the memory context from the two notes files' contents,
    /// as read by the caller: `None` for a missing file.
    pub fn build_memory_context(&self, global: Option<&str>, chat: Option<&str>) -> (r: String)
        ensures
            r@ == context_spec(
                match global {
                    Some(g) => Some(g@),
                    None => None,
                },
                match chat {
                    Some(c) => Some(c@),
                    None => None,
                },
            ),
    {
        let mut context = String::new();
        match global {
            Some(g) => {
                if !crate::text::is_blank(g) {
                    context.append("<global_memory>\n");
                    context.append(g);
                    context.append("\n</global_memory>\n\n");
                }
            },
            None => {},
        }
        match chat {
            Some(c) => {
                if !crate::text::is_blank(c) {
                    context.append("<chat_memory>\n");
                    context.append(c);
                    context.append("\n</chat_memory>\n\n");
                }
            },
            None => {},
        }
        proof {
            assert(context@ =~~= context_spec(
                match global {
                    Some(g) => Some(g@),
                    None => None,
                },
                match chat {
                    Some(c) => Some(c@),
                    None => None,
                },
            ));
        }
        context
    }
}

/// Build the default memory backend from embedder configuration: the
/// provider tag picks the embedder, and the engine starts with the
/// default weights and cache bound. The returned embedder description
/// tells the caller what to run; the engine records only its dimension.
pub fn create_memory(
    embedding_provider: Option<&str>,
    embedding_api_key: Option<&str>,
    embedding_model: &str,
    embedding_dim: usize,
) -> (r: (crate::embed::EmbedderKind, crate::engine::MemoryStore))
    ensures
        ({
            let provider = match embedding_provider {
                Some(p) => p@,
                None => Seq::<char>::empty(),
            };
            crate::embed::selects(
                provider,
                match embedding_api_key {
                    Some(k) => Some(k@),
                    None => None,
                },
                embedding_model@,
                embedding_dim,
                r.0,
            )
        }),
        r.1.wf(),
        r.1.records@.len() == 0,
        r.1.vector_weight == 700_000u64,
        r.1.keyword_weight == 300_000u64,
        r.1.cache_max == 10_000usize,
        r.1.dims == (if r.0 is Null {
            0usize
        } else {
            embedding_dim
        }),
{
    let kind = match embedding_provider {
        Some(p) => crate::embed::create_provider(p, embedding_api_key, embedding_model, embedding_dim),
        None => {
            proof {
                reveal_strlit("openai");
                reveal_strlit("custom:");
            }
            crate::embed::EmbedderKind::Null
        },
    };
    let dims: usize = match &kind {
        crate::embed::EmbedderKind::Null => 0,
        crate::embed::EmbedderKind::OpenAi { .. } => embedding_dim,
    };
    let store = crate::engine::MemoryStore::with_params(700_000, 300_000, 10_000, dims);
    (kind, store)
}

} // verus!
