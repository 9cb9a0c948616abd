//! Output formatting of log events from a format string. A format is a
//! run of literals, `$$` escapes, and `$name` or `${name}` variables
//! over the event's fields; timestamps print in RFC 3339 form with
//! millisecond precision.
use vstd::prelude::*;

use crate::calendar::{millis_to_civil, millis_upper_bound, CivilTime};
use crate::calendar::lemma_civil_unique;
use crate::text::{four_digits, three_digits, two_digits};
use crate::text::{push_four_digits, push_three_digits, push_two_digits, str_seq_eq};

verus! {

/// How building a formatter fails.
#[derive(Clone, Debug, PartialEq, Eq)]
pub enum FormatCwlLogEventError {
    /// The format string does not parse.
    CompileError(String),
    /// A variable is not one of the event's fields.
    UnknownFormatVariable(String),
    Unknown,
}

/// The unique well-formed broken-down form of an instant.
pub open spec fn spec_civil(ms: int) -> CivilTime {
    choose|ct: CivilTime| ct.wf() && ct.as_millis() == ms
}

/// RFC 3339 text of a broken-down instant, millisecond precision,
/// `Z` offset.
pub open spec fn rfc3339_of(ct: CivilTime) -> Seq<char> {
    four_digits(ct.year as int) + seq!['-'] + two_digits(ct.month as int) + seq!['-'] + two_digits(
        ct.day as int,
    ) + seq!['T'] + two_digits(ct.hour as int) + seq![':'] + two_digits(ct.minute as int)
        + seq![':'] + two_digits(ct.second as int) + seq!['.'] + three_digits(
        ct.millisecond as int,
    ) + seq!['Z']
}

/// RFC 3339 text of an instant.
pub open spec fn rfc3339_millis_spec(ms: int) -> Seq<char> {
    rfc3339_of(spec_civil(ms))
}

/// Render an instant as RFC 3339 text with millisecond precision.
pub fn format_rfc3339_millis(ms: i64) -> (r: String)
    requires
        0 <= ms < millis_upper_bound(),
    ensures
        r@ == rfc3339_millis_spec(ms as int),
{
    let ct = millis_to_civil(ms);
    proof {
        let w = spec_civil(ms as int);
        assert(w.wf() && w.as_millis() == ms) by {
            assert(ct.wf() && ct.as_millis() == ms);
        }
        lemma_civil_unique(ct, w);
        reveal_strlit("-");
        reveal_strlit("T");
        reveal_strlit(":");
        reveal_strlit(".");
        reveal_strlit("Z");
    }
    let mut out = String::new();
    push_four_digits(&mut out, ct.year);
    out.append("-");
    push_two_digits(&mut out, ct.month);
    out.append("-");
    push_two_digits(&mut out, ct.day);
    out.append("T");
    push_two_digits(&mut out, ct.hour);
    out.append(":");
    push_two_digits(&mut out, ct.minute);
    out.append(":");
    push_two_digits(&mut out, ct.second);
    out.append(".");
    push_three_digits(&mut out, ct.millisecond);
    out.append("Z");
    proof {
        assert(out@ =~= rfc3339_of(ct));
    }
    out
}

/// A log event with its timestamps pre-rendered for formatting.
#[derive(Clone, Debug)]
pub struct FilteredLogEvent {
    pub log_group_name: String,
    pub event_id: String,
    pub ingestion_time: i64,
    pub log_stream_name: String,
    pub message: String,
    pub timestamp: i64,
    pub ingestion_time_rfc3339: String,
    pub timestamp_rfc3339: String,
}

impl FilteredLogEvent {
    /// The pre-rendered fields hold the RFC 3339 text of the instants.
    pub open spec fn wf(&self) -> bool {
        &&& self.ingestion_time_rfc3339@ == rfc3339_millis_spec(self.ingestion_time as int)
        &&& self.timestamp_rfc3339@ == rfc3339_millis_spec(self.timestamp as int)
    }

    pub fn new(
        log_group_name: String,
        event_id: String,
        ingestion_time: i64,
        log_stream_name: String,
        message: String,
        timestamp: i64,
    ) -> (r: Self)
        requires
            0 <= ingestion_time < millis_upper_bound(),
            0 <= timestamp < millis_upper_bound(),
        ensures
            r.wf(),
            r.log_group_name == log_group_name,
            r.event_id == event_id,
            r.ingestion_time == ingestion_time,
            r.log_stream_name == log_stream_name,
            r.message == message,
            r.timestamp == timestamp,
    {
        let ingestion_time_rfc3339 = format_rfc3339_millis(ingestion_time);
        let timestamp_rfc3339 = format_rfc3339_millis(timestamp);
        Self {
            log_group_name,
            event_id,
            ingestion_time,
            ingestion_time_rfc3339,
            log_stream_name,
            message,
            timestamp,
            timestamp_rfc3339,
        }
    }
}

/// The event fields a format may name.
#[derive(Clone, Copy, Debug, PartialEq, Eq, Hash, Structural)]
pub enum FilteredLogEventVariable {
    LogGroupName,
    EventId,
    IngestionTime,
    LogStreamName,
    Message,
    Timestamp,
}

/// One step of a compiled format: an escaped `$`, an event field, or
/// literal text.
#[derive(Clone, Debug)]
pub enum FormatValue {
    EscapedDelimeter,
    Variable(FilteredLogEventVariable),
    Literal(String),
}

/// The variable a name denotes, if any.
pub open spec fn spec_variable_of(name: Seq<char>) -> Option<FilteredLogEventVariable> {
    if name == "log_group_name"@ {
        Some(FilteredLogEventVariable::LogGroupName)
    } else if name == "event_id"@ {
        Some(FilteredLogEventVariable::EventId)
    } else if name == "ingestion_time"@ {
        Some(FilteredLogEventVariable::IngestionTime)
    } else if name == "log_stream_name"@ {
        Some(FilteredLogEventVariable::LogStreamName)
    } else if name == "message"@ {
        Some(FilteredLogEventVariable::Message)
    } else if name == "timestamp"@ {
        Some(FilteredLogEventVariable::Timestamp)
    } else {
        None
    }
}

fn variable_of(name: &str) -> (r: Option<FilteredLogEventVariable>)
    ensures
        r == spec_variable_of(name@),
{
    if str_seq_eq(name, "log_group_name") {
        Some(FilteredLogEventVariable::LogGroupName)
    } else if str_seq_eq(name, "event_id") {
        Some(FilteredLogEventVariable::EventId)
    } else if str_seq_eq(name, "ingestion_time") {
        Some(FilteredLogEventVariable::IngestionTime)
    } else if str_seq_eq(name, "log_stream_name") {
        Some(FilteredLogEventVariable::LogStreamName)
    } else if str_seq_eq(name, "message") {
        Some(FilteredLogEventVariable::Message)
    } else if str_seq_eq(name, "timestamp") {
        Some(FilteredLogEventVariable::Timestamp)
    } else {
        None
    }
}

/// A character a variable name may hold.
pub open spec fn is_ident_char(c: char) -> bool {
    ||| ('a' as int) <= c as int <= ('z' as int)
    ||| ('A' as int) <= c as int <= ('Z' as int)
    ||| ('0' as int) <= c as int <= ('9' as int)
    ||| c == '_'
}

/// First position at or after `i` holding `$`, or the end.
pub open spec fn literal_end(s: Seq<char>, i: int) -> int
    decreases s.len() - i,
{
    if i < 0 || i >= s.len() {
        s.len() as int
    } else if s[i] == '$' {
        i
    } else {
        literal_end(s, i + 1)
    }
}

/// First position at or after `i` past the identifier there, or the end.
pub open spec fn ident_end(s: Seq<char>, i: int) -> int
    decreases s.len() - i,
{
    if i < 0 || i >= s.len() {
        s.len() as int
    } else if !is_ident_char(s[i]) {
        i
    } else {
        ident_end(s, i + 1)
    }
}

pub proof fn lemma_literal_end(s: Seq<char>, i: int)
    requires
        0 <= i <= s.len(),
    ensures
        i <= literal_end(s, i) <= s.len(),
        forall|j: int| i <= j < literal_end(s, i) ==> (#[trigger] s[j]) != '$',
        literal_end(s, i) < s.len() ==> s[literal_end(s, i)] == '$',
    decreases s.len() - i,
{
    if i < s.len() && s[i] != '$' {
        lemma_literal_end(s, i + 1);
    }
}

pub proof fn lemma_ident_end(s: Seq<char>, i: int)
    requires
        0 <= i <= s.len(),
    ensures
        i <= ident_end(s, i) <= s.len(),
        forall|j: int| i <= j < ident_end(s, i) ==> is_ident_char(#[trigger] s[j]),
        ident_end(s, i) < s.len() ==> !is_ident_char(s[ident_end(s, i)]),
    decreases s.len() - i,
{
    if i < s.len() && is_ident_char(s[i]) {
        lemma_ident_end(s, i + 1);
    }
}

/// Where the token starting at `i` ends: a literal runs to the next
/// `$`; `$$` spans two; `${name}` runs past the brace; `$name` runs
/// past the identifier.
pub open spec fn token_end(s: Seq<char>, i: int) -> int {
    if s[i] != '$' {
        literal_end(s, i + 1)
    } else if i + 1 < s.len() && s[i + 1] == '$' {
        i + 2
    } else if i + 1 < s.len() && s[i + 1] == '{' {
        ident_end(s, i + 2) + 1
    } else {
        ident_end(s, i + 1)
    }
}

/// The token starting at `i` is grammatical: a `$` must be followed by
/// `$`, a braced nonempty identifier, or a nonempty identifier.
pub open spec fn token_ok(s: Seq<char>, i: int) -> bool {
    if s[i] != '$' {
        true
    } else if i + 1 < s.len() && s[i + 1] == '$' {
        true
    } else if i + 1 < s.len() && s[i + 1] == '{' {
        let e = ident_end(s, i + 2);
        e > i + 2 && e < s.len() && s[e] == '}'
    } else {
        i + 1 < s.len() && ident_end(s, i + 1) > i + 1
    }
}

/// The name of the variable token at `i`.
pub open spec fn token_var_name(s: Seq<char>, i: int) -> Seq<char> {
    if i + 1 < s.len() && s[i + 1] == '{' {
        s.subrange(i + 2, ident_end(s, i + 2))
    } else {
        s.subrange(i + 1, ident_end(s, i + 1))
    }
}

/// The token at `i` names an event field, or is no variable at all.
pub open spec fn token_var_ok(s: Seq<char>, i: int) -> bool {
    if s[i] != '$' || (i + 1 < s.len() && s[i + 1] == '$') {
        true
    } else {
        spec_variable_of(token_var_name(s, i)) is Some
    }
}

pub proof fn lemma_token_end(s: Seq<char>, i: int)
    requires
        0 <= i < s.len(),
    ensures
        i < token_end(s, i),
        token_ok(s, i) ==> token_end(s, i) <= s.len(),
    decreases 0int,
{
    if s[i] != '$' {
        lemma_literal_end(s, i + 1);
    } else if i + 1 < s.len() && s[i + 1] == '$' {
    } else if i + 1 < s.len() && s[i + 1] == '{' {
        lemma_ident_end(s, i + 2);
    } else {
        lemma_ident_end(s, i + 1);
    }
}

/// The format from `i` on is grammatical.
pub open spec fn syntax_ok(s: Seq<char>, i: int) -> bool
    decreases s.len() - i
        via syntax_ok_dec
{
    if i < 0 || i >= s.len() {
        true
    } else {
        token_ok(s, i) && (token_end(s, i) > s.len() || syntax_ok(s, token_end(s, i)))
    }
}

#[via_fn]
proof fn syntax_ok_dec(s: Seq<char>, i: int) {
    if 0 <= i < s.len() {
        lemma_token_end(s, i);
    }
}

/// Every variable of the format from `i` on names an event field.
pub open spec fn vars_ok(s: Seq<char>, i: int) -> bool
    decreases s.len() - i
        via vars_ok_dec
{
    if i < 0 || i >= s.len() {
        true
    } else {
        token_var_ok(s, i) && (token_end(s, i) > s.len() || vars_ok(s, token_end(s, i)))
    }
}

#[via_fn]
proof fn vars_ok_dec(s: Seq<char>, i: int) {
    if 0 <= i < s.len() {
        lemma_token_end(s, i);
    }
}

/// The name of the first unknown variable of the format from `i` on.
pub open spec fn first_unknown_var(s: Seq<char>, i: int) -> Seq<char>
    decreases s.len() - i
        via first_unknown_var_dec
{
    if i < 0 || i >= s.len() {
        Seq::empty()
    } else if !token_var_ok(s, i) {
        token_var_name(s, i)
    } else if token_end(s, i) > s.len() {
        Seq::empty()
    } else {
        first_unknown_var(s, token_end(s, i))
    }
}

#[via_fn]
proof fn first_unknown_var_dec(s: Seq<char>, i: int) {
    if 0 <= i < s.len() {
        lemma_token_end(s, i);
    }
}

/// What the token at `i` compiles to.
pub open spec fn token_instr_ok(s: Seq<char>, i: int, v: FormatValue) -> bool {
    if s[i] != '$' {
        v matches FormatValue::Literal(lit) && lit@ == s.subrange(i, literal_end(s, i + 1))
    } else if i + 1 < s.len() && s[i + 1] == '$' {
        v is EscapedDelimeter
    } else {
        v matches FormatValue::Variable(var) && Some(var) == spec_variable_of(
            token_var_name(s, i),
        )
    }
}

/// The instructions compile the format from `i` on, token by token.
pub open spec fn instrs_match(s: Seq<char>, i: int, instrs: Seq<FormatValue>) -> bool
    decreases s.len() - i
        via instrs_match_dec
{
    if i < 0 || i >= s.len() {
        instrs.len() == 0
    } else {
        &&& instrs.len() > 0
        &&& token_instr_ok(s, i, instrs[0])
        &&& token_end(s, i) <= s.len()
        &&& instrs_match(s, token_end(s, i), instrs.drop_first())
    }
}

#[via_fn]
proof fn instrs_match_dec(s: Seq<char>, i: int, instrs: Seq<FormatValue>) {
    if 0 <= i < s.len() {
        lemma_token_end(s, i);
    }
}

/// A compiled format: the instruction run the parse produced.
#[derive(Clone, Debug)]
pub struct LogFormatter {
    pub instructions: Vec<FormatValue>,
}

impl LogFormatter {
    /// Compile a format string. The format parses into literals, `$$`
    /// escapes, and variables; a malformed format is a `CompileError`
    /// and an unknown variable name is reported as such, in format
    /// order, after the whole format has parsed.
    pub fn new(format: &str) -> (r: Result<LogFormatter, FormatCwlLogEventError>)
        ensures
            match r {
                Ok(f) => {
                    &&& syntax_ok(format@, 0)
                    &&& vars_ok(format@, 0)
                    &&& instrs_match(format@, 0, f.instructions@)
                },
                Err(e) => {
                    ||| (e matches FormatCwlLogEventError::CompileError(m) && !syntax_ok(
                        format@,
                        0,
                    ) && m@ == "invalid format string"@)
                    ||| (e matches FormatCwlLogEventError::UnknownFormatVariable(m) && syntax_ok(
                        format@,
                        0,
                    ) && !vars_ok(format@, 0) && m@ == first_unknown_var(format@, 0))
                },
            },
    {
        let ghost s = format@;
        let n = format.unicode_len();
        // first pass: the grammar
        let mut i: usize = 0;
        while i < n
            invariant
                n == s.len(),
                s == format@,
                0 <= i <= n,
                syntax_ok(s, 0) == syntax_ok(s, i as int),
            decreases n - i,
        {
            let next = match scan_token(format, i) {
                Some(next) => next,
                None => {
                    proof {
                        reveal_strlit("invalid format string");
                    }
                    return Err(
                        FormatCwlLogEventError::CompileError(
                            String::from_str("invalid format string"),
                        ),
                    );
                },
            };
            proof {
                lemma_token_end(s, i as int);
            }
            i = next;
        }
        // second pass: compile, resolving variable names in order
        let mut instructions: Vec<FormatValue> = Vec::new();
        let mut j: usize = 0;
        while j < n
            invariant
                n == s.len(),
                s == format@,
                0 <= j <= n,
                syntax_ok(s, 0),
                syntax_ok(s, j as int),
                vars_ok(s, 0) == vars_ok(s, j as int),
                first_unknown_var(s, 0) == first_unknown_var(s, j as int),
                forall|rest: Seq<FormatValue>|
                    instrs_match(s, 0, instructions@ + rest) == #[trigger] instrs_match(
                        s,
                        j as int,
                        rest,
                    ),
            decreases n - j,
        {
            let c = format.get_char(j);
            let ghost pre = instructions@;
            let ghost jj = j as int;
            let next: usize;
            if c != '$' {
                let e = scan_literal(format, j + 1);
                let lit = format.substring_char(j, e);
                instructions.push(FormatValue::Literal(String::from_str(lit)));
                next = e;
                proof {
                    assert(token_instr_ok(s, jj, instructions@.last()));
                }
            } else if j + 1 < n && format.get_char(j + 1) == '$' {
                instructions.push(FormatValue::EscapedDelimeter);
                next = j + 2;
                proof {
                    assert(token_instr_ok(s, jj, instructions@.last()));
                }
            } else {
                let braced = j + 1 < n && format.get_char(j + 1) == '{';
                let name_start = if braced {
                    j + 2
                } else {
                    j + 1
                };
                let name_end = scan_ident(format, name_start);
                let name = format.substring_char(name_start, name_end);
                let var = match variable_of(name) {
                    Some(var) => var,
                    None => {
                        proof {
                            assert(!token_var_ok(s, jj));
                            assert(first_unknown_var(s, jj) == name@);
                        }
                        return Err(
                            FormatCwlLogEventError::UnknownFormatVariable(String::from_str(name)),
                        );
                    },
                };
                instructions.push(FormatValue::Variable(var));
                next = if braced {
                    name_end + 1
                } else {
                    name_end
                };
                proof {
                    assert(token_var_ok(s, jj));
                    assert(token_instr_ok(s, jj, instructions@.last()));
                }
            }
            proof {
                lemma_token_end(s, jj);
                assert(next as int == token_end(s, jj));
                assert forall|rest: Seq<FormatValue>|
                    instrs_match(s, 0, instructions@ + rest) == #[trigger] instrs_match(
                        s,
                        next as int,
                        rest,
                    ) by {
                    let v = instructions@.last();
                    assert(instructions@ + rest =~= pre + (seq![v] + rest));
                    assert((seq![v] + rest).drop_first() =~= rest);
                    assert((seq![v] + rest)[0] == v);
                    assert(instrs_match(s, jj, seq![v] + rest) == instrs_match(
                        s,
                        next as int,
                        rest,
                    ));
                }
            }
            j = next;
        }
        proof {
            let empty = Seq::<FormatValue>::empty();
            assert(instrs_match(s, j as int, empty));
            assert(instructions@ + empty =~= instructions@);
        }
        Ok(LogFormatter { instructions })
    }

    /// The text one instruction contributes for an event.
    pub open spec fn spec_instr_text(v: FormatValue, e: FilteredLogEvent) -> Seq<char> {
        match v {
            FormatValue::EscapedDelimeter => seq!['$'],
            FormatValue::Variable(var) => match var {
                FilteredLogEventVariable::LogGroupName => e.log_group_name@,
                FilteredLogEventVariable::EventId => e.event_id@,
                FilteredLogEventVariable::IngestionTime => rfc3339_millis_spec(
                    e.ingestion_time as int,
                ),
                FilteredLogEventVariable::LogStreamName => e.log_stream_name@,
                FilteredLogEventVariable::Message => e.message@,
                FilteredLogEventVariable::Timestamp => rfc3339_millis_spec(e.timestamp as int),
            },
            FormatValue::Literal(lit) => lit@,
        }
    }

    /// The formatted text: each instruction's contribution in order.
    pub open spec fn spec_format(instrs: Seq<FormatValue>, e: FilteredLogEvent) -> Seq<char>
        decreases instrs.len(),
    {
        if instrs.len() == 0 {
            Seq::empty()
        } else {
            Self::spec_format(instrs.drop_last(), e) + Self::spec_instr_text(instrs.last(), e)
        }
    }

    /// Render an event through the compiled format.
    pub fn format(&self, event: FilteredLogEvent) -> (r: String)
        requires
            event.wf(),
        ensures
            r@ == Self::spec_format(self.instructions@, event),
    {
        let mut output = String::new();
        let n = self.instructions.len();
        let mut i: usize = 0;
        while i < n
            invariant
                event.wf(),
                n == self.instructions@.len(),
                0 <= i <= n,
                output@ == Self::spec_format(self.instructions@.subrange(0, i as int), event),
            decreases n - i,
        {
            proof {
                reveal_strlit("$");
                assert(self.instructions@.subrange(0, i + 1 as int).drop_last()
                    =~= self.instructions@.subrange(0, i as int));
            }
            match &self.instructions[i] {
                FormatValue::EscapedDelimeter => {
                    output.append("$");
                    proof {
                        assert("$"@ =~= seq!['$']);
                    }
                },
                FormatValue::Variable(var) => {
                    match var {
                        FilteredLogEventVariable::LogGroupName => {
                            output.append(event.log_group_name.as_str());
                        },
                        FilteredLogEventVariable::EventId => {
                            output.append(event.event_id.as_str());
                        },
                        FilteredLogEventVariable::IngestionTime => {
                            output.append(event.ingestion_time_rfc3339.as_str());
                        },
                        FilteredLogEventVariable::LogStreamName => {
                            output.append(event.log_stream_name.as_str());
                        },
                        FilteredLogEventVariable::Message => {
                            output.append(event.message.as_str());
                        },
                        FilteredLogEventVariable::Timestamp => {
                            output.append(event.timestamp_rfc3339.as_str());
                        },
                    }
                },
                FormatValue::Literal(lit) => {
                    output.append(lit.as_str());
                },
            }
            i = i + 1;
        }
        proof {
            assert(self.instructions@.subrange(0, n as int) =~= self.instructions@);
        }
        output
    }
}

/// Step over the token at `i`, or report it malformed.
fn scan_token(format: &str, i: usize) -> (r: Option<usize>)
    requires
        i < format@.len(),
    ensures
        match r {
            Some(next) => token_ok(format@, i as int) && next == token_end(format@, i as int)
                && i < next <= format@.len(),
            None => !token_ok(format@, i as int),
        },
{
    let ghost s = format@;
    let n = format.unicode_len();
    proof {
        lemma_token_end(s, i as int);
    }
    let c = format.get_char(i);
    if c != '$' {
        Some(scan_literal(format, i + 1))
    } else if i + 1 < n && format.get_char(i + 1) == '$' {
        Some(i + 2)
    } else if i + 1 < n && format.get_char(i + 1) == '{' {
        let e = scan_ident(format, i + 2);
        if e > i + 2 && e < n && format.get_char(e) == '}' {
            Some(e + 1)
        } else {
            None
        }
    } else if i + 1 < n {
        let e = scan_ident(format, i + 1);
        if e > i + 1 {
            Some(e)
        } else {
            None
        }
    } else {
        None
    }
}

/// First position at or after `i` holding `$`, or the end.
fn scan_literal(format: &str, i: usize) -> (r: usize)
    requires
        i <= format@.len(),
    ensures
        r == literal_end(format@, i as int),
        i <= r <= format@.len(),
{
    let n = format.unicode_len();
    let mut j = i;
    while j < n
        invariant
            i <= j <= n,
            n == format@.len(),
            literal_end(format@, i as int) == literal_end(format@, j as int),
            forall|k: int| i <= k < j ==> (#[trigger] format@[k]) != '$',
        decreases n - j,
    {
        if format.get_char(j) == '$' {
            return j;
        }
        j = j + 1;
    }
    j
}

/// First position at or after `i` past the identifier there.
fn scan_ident(format: &str, i: usize) -> (r: usize)
    requires
        i <= format@.len(),
    ensures
        r == ident_end(format@, i as int),
        i <= r <= format@.len(),
{
    let n = format.unicode_len();
    let mut j = i;
    while j < n
        invariant
            i <= j <= n,
            n == format@.len(),
            ident_end(format@, i as int) == ident_end(format@, j as int),
        decreases n - j,
    {
        let c = format.get_char(j);
        let v = c as u32;
        let ok = (97 <= v && v <= 122) || (65 <= v && v <= 90) || (48 <= v && v <= 57) || c == '_';
        if !ok {
            return j;
        }
        j = j + 1;
    }
    j
}

/// Validate an output format for the command line: the formatter's
/// error text, after a newline, as the message.
pub fn clap_validate_output_format(output_format: &str) -> (r: Result<(), String>)
    ensures
        r is Ok <==> syntax_ok(output_format@, 0) && vars_ok(output_format@, 0),
        !syntax_ok(output_format@, 0) ==> (r matches Err(m) && m@ == seq!['\n']
            + "invalid format string"@),
        syntax_ok(output_format@, 0) && !vars_ok(output_format@, 0) ==> (r matches Err(m) && m@
            == seq!['\n'] + first_unknown_var(output_format@, 0)),
{
    match LogFormatter::new(output_format) {
        Ok(_) => Ok(()),
        Err(err) => {
            proof {
                reveal_strlit("\n");
                assert("\n"@ =~= seq!['\n']);
            }
            let mut msg = String::from_str("\n");
            let detail = match err {
                FormatCwlLogEventError::CompileError(m) => m,
                FormatCwlLogEventError::UnknownFormatVariable(m) => m,
                FormatCwlLogEventError::Unknown => String::new(),
            };
            msg.append(detail.as_str());
            Err(msg)
        },
    }
}

} // verus!
