use vstd::prelude::*;
use vstd::string::{StrSliceExecFns, StringSliceAdditionalSpecFns};

verus! {

/// Attribute keys that the tracing instrumentation adds by itself; they are
/// not labels that a user set.
pub open spec fn autogenerated_labels() -> Seq<Seq<char>> {
    seq![
        "thread.id"@,
        "code.namespace"@,
        "code.lineno"@,
        "idle_ns"@,
        "busy_ns"@,
        "runtime_query"@,
        "target"@,
        "code.filepath"@,
        "level"@,
        "thread.name"@,
        "input"@,
    ]
}

/// Whether two strings hold the same characters.
fn same_text(a: &str, b: &str) -> (r: bool)
    ensures
        r == (a@ == b@),
{
    let x = a.as_bytes();
    let y = b.as_bytes();
    proof {
        vstd::utf8::encode_utf8_decode_utf8(a@);
        vstd::utf8::encode_utf8_decode_utf8(b@);
    }
    if x.len() != y.len() {
        return false;
    }
    let mut i: usize = 0;
    while i < x.len()
        invariant
            0 <= i <= x@.len(),
            x@.len() == y@.len(),
            x@ == a.spec_bytes(),
            y@ == b.spec_bytes(),
            forall|j: int| 0 <= j < i ==> x@[j] == y@[j],
        decreases x@.len() - i,
    {
        if x[i] != y[i] {
            return false;
        }
        i += 1;
    }
    proof {
        assert(x@ =~= y@);
    }
    true
}

/// Keeps an attribute key as a label unless the instrumentation generated it.
pub fn filter_event_keys(event_key: &str) -> (r: bool)
    ensures
        r == !autogenerated_labels().contains(event_key@),
{
    let labels = [
        "thread.id",
        "code.namespace",
        "code.lineno",
        "idle_ns",
        "busy_ns",
        "runtime_query",
        "target",
        "code.filepath",
        "level",
        "thread.name",
        "input",
    ];
    let mut i: usize = 0;
    while i < 11
        invariant
            0 <= i <= 11,
            forall|j: int| 0 <= j < 11 ==> (#[trigger] labels@[j])@ == autogenerated_labels()[j],
            forall|j: int| 0 <= j < i ==> autogenerated_labels()[j] != event_key@,
        decreases 11 - i,
    {
        if same_text(event_key, labels[i]) {
            return false;
        }
        i += 1;
    }
    true
}

/// Whether `c` is an ASCII hexadecimal digit, in either case.
pub open spec fn is_hex_digit(c: char) -> bool {
    ('0' <= c <= '9') || ('a' <= c <= 'f') || ('A' <= c <= 'F')
}

/// Whether `s` is exactly `n` hexadecimal digits.
pub open spec fn is_hex_id(s: Seq<char>, n: nat) -> bool {
    &&& s.len() == n
    &&& forall|i: int| 0 <= i < s.len() ==> is_hex_digit(#[trigger] s[i])
}

fn hex_id_of_len(s: &str, n: usize) -> (r: bool)
    ensures
        r == is_hex_id(s@, n as nat),
{
    if s.unicode_len() != n {
        return false;
    }
    let mut i: usize = 0;
    while i < n
        invariant
            0 <= i <= n,
            s@.len() == n,
            forall|j: int| 0 <= j < i ==> is_hex_digit(#[trigger] s@[j]),
        decreases n - i,
    {
        let c = s.get_char(i);
        if !(('0' <= c && c <= '9') || ('a' <= c && c <= 'f') || ('A' <= c && c <= 'F')) {
            return false;
        }
        i += 1;
    }
    true
}

/// Whether `span_id` is a valid span id: 16 hexadecimal digits.
pub fn is_valid_span_id(span_id: &str) -> (r: bool)
    ensures
        r == is_hex_id(span_id@, 16),
{
    hex_id_of_len(span_id, 16)
}

/// Whether `trace_id` is a valid trace id: 32 hexadecimal digits.
pub fn is_valid_traceid(trace_id: &str) -> (r: bool)
    ensures
        r == is_hex_id(trace_id@, 32),
{
    hex_id_of_len(trace_id, 32)
}

/// How much of a task's output the task history keeps.
pub enum CapturedOutput {
    /// Keep none of it.
    Nothing,
    /// Keep it as it was captured.
    Truncated,
}

/// The output that the task history records under `mode`.
pub fn process_output(mode: &CapturedOutput, output: String) -> (r: String)
    ensures
        r@ == match mode {
            CapturedOutput::Nothing => Seq::<char>::empty(),
            CapturedOutput::Truncated => output@,
        },
{
    match mode {
        CapturedOutput::Nothing => String::new(),
        CapturedOutput::Truncated => output,
    }
}

} // verus!
