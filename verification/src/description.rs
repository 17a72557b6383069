//! The text of a pipeline description: one stage per line, split into words
//! as a shell would, the first word naming the stage or marking a branch point.

use crate::text::{
    digits_number, has_prefix, hex_text, hex_value, is_control, is_hex_digit,
    lemma_hex_text_reads_back, parse_digits, push_hex, starts_with, texts,
};
use crate::topology::{
    ascending, closes, ends_with_close, lemma_every_leaf_closes_once, plan_of, try_plan, Node,
    Plan, PlanError,
};
use vstd::prelude::*;
use vstd::string::*;

verus! {

/// The words of a line under shell quoting rules, or `None` where a quote is
/// left open.
pub uninterp spec fn shell_split(line: Seq<char>) -> Option<Seq<Seq<char>>>;

/// `shell_words::split`: the words of `line`, quotes and escapes resolved;
/// `None` stands for its `ParseError`. The result depends on the line alone.
#[verifier::external_body]
fn split_words(line: &str) -> (out: Option<Vec<String>>)
    ensures
        out is Some <==> shell_split(line@) is Some,
        out matches Some(words) ==> shell_split(line@) == Some(texts(words@)),
{
    match shell_words::split(line) {
        Ok(words) => Some(words),
        Err(_) => None,
    }
}

/// The branch parameter that `s` writes: decimal digits, which a plus sign
/// may precede.
pub open spec fn branch_number(s: Seq<char>) -> Option<usize> {
    if s.len() > 0 && s[0] == '+' {
        digits_number(s.subrange(1, s.len() as int))
    } else {
        digits_number(s)
    }
}

/// Reads a branch parameter.
pub fn parse_index(s: &str) -> (out: Option<usize>)
    ensures
        out == branch_number(s@),
{
    let n = s.unicode_len();
    if n > 0 && s.get_char(0) == '+' {
        parse_digits(s.substring_char(1, n))
    } else {
        parse_digits(s)
    }
}

/// What stands for `c` inside a double-quoted literal of the program text:
/// a backslash before a double quote and before a backslash; the short
/// escapes for line feed, carriage return and tab; any other control
/// character as `\u{..}` with its code in hexadecimal digits; and every
/// other character as it is.
pub open spec fn escaped_char(c: char) -> Seq<char> {
    if c == '"' {
        seq!['\\', '"']
    } else if c == '\\' {
        seq!['\\', '\\']
    } else if c == '\n' {
        seq!['\\', 'n']
    } else if c == '\r' {
        seq!['\\', 'r']
    } else if c == '\t' {
        seq!['\\', 't']
    } else if is_control(c) {
        seq!['\\', 'u', '{'] + hex_text(c as nat) + seq!['}']
    } else {
        seq![c]
    }
}

/// `s` with each character escaped.
pub open spec fn escaped(s: Seq<char>) -> Seq<char>
    decreases s.len(),
{
    if s.len() == 0 {
        Seq::empty()
    } else {
        escaped(s.drop_last()) + escaped_char(s.last())
    }
}

/// The number of characters of `s` that are a double quote.
pub open spec fn quotes_in(s: Seq<char>) -> nat
    decreases s.len(),
{
    if s.len() == 0 {
        0
    } else {
        quotes_in(s.drop_last()) + if s.last() == '"' {
            1nat
        } else {
            0nat
        }
    }
}

/// Escaped text holds no control character as it is, whatever `s` holds.
pub proof fn lemma_escaped_has_no_control(s: Seq<char>)
    ensures
        forall|i: int| 0 <= i < escaped(s).len() ==> !is_control(#[trigger] escaped(s)[i]),
    decreases s.len(),
{
    if s.len() > 0 {
        lemma_escaped_has_no_control(s.drop_last());
        lemma_hex_text_reads_back(s.last() as nat);
        let head = escaped(s.drop_last());
        let tail = escaped_char(s.last());
        assert forall|i: int| 0 <= i < tail.len() implies !is_control(#[trigger] tail[i]) by {
            let digits = hex_text(s.last() as nat);
            if tail == seq!['\\', 'u', '{'] + digits + seq!['}'] {
                if 3 <= i < 3 + digits.len() {
                    assert(tail[i] == digits[i - 3]);
                    assert(is_hex_digit(digits[i - 3]));
                }
            }
        }
        assert forall|i: int| 0 <= i < escaped(s).len() implies !is_control(
            #[trigger] escaped(s)[i],
        ) by {
            if i < head.len() {
                assert(escaped(s)[i] == head[i]);
            } else {
                assert(escaped(s)[i] == tail[i - head.len()]);
            }
        }
    }
}

/// Where `s` holds no backslash and no control character, only its double
/// quotes are escaped: the escaped text is as long as `s` and its double
/// quotes together.
pub proof fn lemma_escaped_length(s: Seq<char>)
    requires
        forall|i: int| 0 <= i < s.len() ==> (#[trigger] s[i]) != '\\' && !is_control(s[i]),
    ensures
        escaped(s).len() == s.len() + quotes_in(s),
    decreases s.len(),
{
    if s.len() > 0 {
        assert forall|i: int| 0 <= i < s.drop_last().len() implies (#[trigger] s.drop_last()[i])
            != '\\' && !is_control(s.drop_last()[i]) by {
            assert(s.drop_last()[i] == s[i]);
        }
        lemma_escaped_length(s.drop_last());
        assert(s.last() == s[s.len() - 1]);
    }
}

/// The escape that writes `c` by its code.
pub open spec fn unicode_escape(c: char) -> Seq<char> {
    seq!['\\', 'u', '{'] + hex_text(c as nat) + seq!['}']
}

/// The string that program text denotes when it is read as the inside of a
/// double-quoted literal, up to the double quote that ends the literal: a
/// character stands for itself, a backslash with the character behind it for
/// the character that the two write, and `\u{..}` for the character with
/// that code.
pub open spec fn denoted(text: Seq<char>) -> Seq<char>
    decreases text.len(),
{
    if text.len() == 0 || text[0] == '"' {
        Seq::empty()
    } else if text[0] != '\\' {
        seq![text[0]] + denoted(text.skip(1))
    } else if text.len() < 2 {
        Seq::empty()
    } else if text[1] == '"' || text[1] == '\\' {
        seq![text[1]] + denoted(text.skip(2))
    } else if text[1] == 'n' {
        seq!['\n'] + denoted(text.skip(2))
    } else if text[1] == 'r' {
        seq!['\r'] + denoted(text.skip(2))
    } else if text[1] == 't' {
        seq!['\t'] + denoted(text.skip(2))
    } else if exists|c: char| has_prefix(text, unicode_escape(c)) {
        let c = choose|c: char| has_prefix(text, unicode_escape(c));
        seq![c] + denoted(text.skip(unicode_escape(c).len() as int))
    } else {
        Seq::empty()
    }
}

/// Text begins with the escape of one character at most.
proof fn lemma_unicode_escape_is_unique(text: Seq<char>, a: char, b: char)
    requires
        has_prefix(text, unicode_escape(a)),
        has_prefix(text, unicode_escape(b)),
    ensures
        a == b,
{
    let x = hex_text(a as nat);
    let y = hex_text(b as nat);
    lemma_hex_text_reads_back(a as nat);
    lemma_hex_text_reads_back(b as nat);
    let ea = unicode_escape(a);
    let eb = unicode_escape(b);
    assert forall|i: int| 0 <= i < ea.len() implies text[i] == ea[i] by {
        assert(text.subrange(0, ea.len() as int)[i] == ea[i]);
    }
    assert forall|i: int| 0 <= i < eb.len() implies text[i] == eb[i] by {
        assert(text.subrange(0, eb.len() as int)[i] == eb[i]);
    }
    let n = x.len() as int;
    let m = y.len() as int;
    assert(ea[3 + n] == '}');
    assert(eb[3 + m] == '}');
    if n < m {
        assert(eb[3 + n] == y[n]);
        assert(is_hex_digit(y[n]));
        assert(false);
    }
    if m < n {
        assert(ea[3 + m] == x[m]);
        assert(is_hex_digit(x[m]));
        assert(false);
    }
    assert(x =~= y) by {
        assert forall|i: int| 0 <= i < x.len() implies x[i] == y[i] by {
            assert(ea[3 + i] == x[i]);
            assert(eb[3 + i] == y[i]);
        }
    }
    assert(a as nat == b as nat);
}

/// Text that begins with what stands for `c` denotes `c`, and then what the
/// rest denotes.
proof fn lemma_denoted_escaped_char(c: char, rest: Seq<char>)
    ensures
        denoted(escaped_char(c) + rest) == seq![c] + denoted(rest),
{
    let text = escaped_char(c) + rest;
    if c == '"' || c == '\\' || c == '\n' || c == '\r' || c == '\t' {
        assert(text[0] == '\\');
        assert(text.skip(2) =~= rest);
    } else if !is_control(c) {
        assert(text[0] == c);
        assert(text.skip(1) =~= rest);
    } else {
        let e = unicode_escape(c);
        lemma_hex_text_reads_back(c as nat);
        assert(text[0] == '\\');
        assert(text[1] == 'u');
        assert(text.subrange(0, e.len() as int) =~= e);
        assert(has_prefix(text, unicode_escape(c)));
        let d = choose|d: char| has_prefix(text, unicode_escape(d));
        lemma_unicode_escape_is_unique(text, c, d);
        assert(text.skip(e.len() as int) =~= rest);
    }
}

/// The escaped text of a string is what stands for its first character,
/// then the escaped text of the rest.
proof fn lemma_escaped_from_front(c: char, s: Seq<char>)
    ensures
        escaped(seq![c] + s) == escaped_char(c) + escaped(s),
    decreases s.len(),
{
    let all = seq![c] + s;
    if s.len() == 0 {
        assert(all.drop_last() =~= Seq::<char>::empty());
        assert(all.last() == c);
        assert(escaped(all.drop_last()) =~= Seq::<char>::empty());
        assert(escaped(s) =~= Seq::<char>::empty());
        assert(escaped(all) =~= escaped_char(c) + escaped(s));
    } else {
        assert(all.drop_last() =~= seq![c] + s.drop_last());
        assert(all.last() == s.last());
        lemma_escaped_from_front(c, s.drop_last());
        assert(escaped(all) =~= escaped_char(c) + escaped(s));
    }
}

/// Escaped text denotes the string it was made of: whatever `s` holds, the
/// escaped text of `s`, read as the inside of a double-quoted literal that a
/// double quote ends, denotes `s`, whatever follows that quote.
pub proof fn lemma_escaped_denotes(s: Seq<char>, rest: Seq<char>)
    ensures
        denoted(escaped(s) + seq!['"'] + rest) == s,
    decreases s.len(),
{
    if s.len() == 0 {
        assert((escaped(s) + seq!['"'] + rest)[0] == '"');
        assert(denoted(escaped(s) + seq!['"'] + rest) =~= s);
    } else {
        let tail = s.skip(1);
        assert(s =~= seq![s[0]] + tail);
        lemma_escaped_from_front(s[0], tail);
        lemma_denoted_escaped_char(s[0], escaped(tail) + seq!['"'] + rest);
        lemma_escaped_denotes(tail, rest);
        assert(escaped(s) + seq!['"'] + rest =~= escaped_char(s[0]) + (escaped(tail) + seq!['"']
            + rest));
        assert(denoted(escaped(s) + seq!['"'] + rest) =~= s);
    }
}

/// The source text of an expression that builds the string `s`.
pub open spec fn quoted(s: Seq<char>) -> Seq<char> {
    "String::from(\""@ + escaped(s) + "\")"@
}

/// The quoted text of a string denotes the string: behind `String::from("`
/// stands a literal that denotes `s`.
pub proof fn lemma_quoted_denotes(s: Seq<char>)
    ensures
        has_prefix(quoted(s), "String::from(\""@),
        denoted(quoted(s).skip("String::from(\""@.len() as int)) == s,
{
    let head = "String::from(\""@;
    reveal_strlit("\")");
    assert("\")"@ =~= seq!['"'] + seq![')']);
    assert(quoted(s).subrange(0, head.len() as int) =~= head);
    assert(quoted(s).skip(head.len() as int) =~= escaped(s) + seq!['"'] + seq![')']);
    lemma_escaped_denotes(s, seq![')']);
}

/// Appends what stands for `c` inside a double-quoted literal.
fn push_escaped(out: &mut String, s: &str, i: usize)
    requires
        i < s@.len() <= usize::MAX,
    ensures
        final(out)@ == old(out)@ + escaped_char(s@[i as int]),
{
    let c = s.get_char(i);
    proof {
        reveal_strlit("\\\"");
        reveal_strlit("\\\\");
        reveal_strlit("\\n");
        reveal_strlit("\\r");
        reveal_strlit("\\t");
        reveal_strlit("\\u{");
        reveal_strlit("}");
        assert("\\\""@ =~= seq!['\\', '"']);
        assert("\\\\"@ =~= seq!['\\', '\\']);
        assert("\\n"@ =~= seq!['\\', 'n']);
        assert("\\r"@ =~= seq!['\\', 'r']);
        assert("\\t"@ =~= seq!['\\', 't']);
        assert("\\u{"@ =~= seq!['\\', 'u', '{']);
        assert("}"@ =~= seq!['}']);
    }
    if c == '"' {
        out.append("\\\"");
    } else if c == '\\' {
        out.append("\\\\");
    } else if c == '\n' {
        out.append("\\n");
    } else if c == '\r' {
        out.append("\\r");
    } else if c == '\t' {
        out.append("\\t");
    } else if c < ' ' || (c >= '\u{7f}' && c <= '\u{9f}') {
        out.append("\\u{");
        push_hex(out, c as u32);
        out.append("}");
        assert(out@ =~= old(out)@ + escaped_char(c));
    } else {
        assert(s@.subrange(i as int, i + 1) =~= seq![c]);
        out.append(s.substring_char(i, i + 1));
    }
}

/// Writes `s` as the source text of an expression that builds it: the
/// characters of `s`, each escaped, between `String::from("` and `")`.
pub fn quote(s: &str) -> (out: String)
    ensures
        out@ == quoted(s@),
{
    let mut quoted = String::from_str("String::from(\"");
    let n = s.unicode_len();
    let mut i: usize = 0;
    assert(s@.take(0) =~= Seq::<char>::empty());
    assert(quoted@ =~= "String::from(\""@ + escaped(s@.take(0)));
    while i < n
        invariant
            i <= n,
            n == s@.len(),
            quoted@ == "String::from(\""@ + escaped(s@.take(i as int)),
        decreases n - i,
    {
        proof {
            assert(s@.take(i + 1).drop_last() =~= s@.take(i as int));
            assert(s@.take(i + 1).last() == s@[i as int]);
        }
        push_escaped(&mut quoted, s, i);
        assert(quoted@ =~= "String::from(\""@ + escaped(s@.take(i + 1)));
        i += 1;
    }
    assert(s@.take(n as int) =~= s@);
    quoted.append("\")");
    quoted
}

/// One line of a description, read: the stage's type name, what the line
/// declares, and the stage's constructor arguments in order.
#[derive(Debug)]
pub struct StageLine {
    pub name: String,
    pub node: Node,
    pub args: Vec<String>,
}

/// A `StageLine` as plain text.
pub struct StageLineView {
    pub name: Seq<char>,
    pub node: Node,
    pub args: Seq<Seq<char>>,
}

impl View for StageLine {
    type V = StageLineView;

    open spec fn view(&self) -> StageLineView {
        StageLineView { name: self.name@, node: self.node, args: texts(self.args@) }
    }
}

/// Why a line declares no stage.
#[derive(Clone, Copy, Debug, PartialEq, Eq, Structural)]
pub enum LineError {
    /// The line cannot be split into words: a quote is left open.
    Unbalanced,
    /// The line holds no word.
    Empty,
    /// What follows `Junction:` is not a number that fits.
    BadBranch,
    /// A branch point names no stage type.
    MissingStage,
}

/// The word that marks a branch point, up to its parameter.
pub open spec fn marker() -> Seq<char> {
    "Junction:"@
}

/// The stage that a line's words declare. A first word that begins with
/// `Junction:` marks a branch point: its parameter follows the colon, and the
/// next word names the stage. Any other first word names a plain stage. The
/// words behind the name are the arguments.
pub open spec fn stage_of(words: Seq<Seq<char>>) -> Result<StageLineView, LineError> {
    if words.len() == 0 {
        Err(LineError::Empty)
    } else if has_prefix(words[0], marker()) {
        match branch_number(words[0].subrange(marker().len() as int, words[0].len() as int)) {
            None => Err(LineError::BadBranch),
            Some(k) => if words.len() < 2 {
                Err(LineError::MissingStage)
            } else {
                Ok(
                    StageLineView {
                        name: words[1],
                        node: Node::Junction(k),
                        args: words.subrange(2, words.len() as int),
                    },
                )
            },
        }
    } else {
        Ok(
            StageLineView {
                name: words[0],
                node: Node::Transformer,
                args: words.subrange(1, words.len() as int),
            },
        )
    }
}

/// The stage that a line of text declares.
pub open spec fn stage_of_line(line: Seq<char>) -> Result<StageLineView, LineError> {
    match shell_split(line) {
        None => Err(LineError::Unbalanced),
        Some(words) => stage_of(words),
    }
}

/// What `out` says, as plain text.
pub open spec fn read_as(out: Result<StageLine, LineError>) -> Result<StageLineView, LineError> {
    match out {
        Ok(stage) => Ok(stage@),
        Err(e) => Err(e),
    }
}

/// Reads the stage that the words of one line declare.
pub fn classify_words(words: Vec<String>) -> (out: Result<StageLine, LineError>)
    ensures
        read_as(out) == stage_of(texts(words@)),
{
    let mut words = words;
    let ghost all = texts(words@);
    if words.len() == 0 {
        return Err(LineError::Empty);
    }
    let first = words.remove(0);
    assert(first@ == all[0]);
    assert(texts(words@) =~= all.subrange(1, all.len() as int));
    let mark = "Junction:";
    if starts_with(first.as_str(), mark) {
        let from = mark.unicode_len();
        let to = first.as_str().unicode_len();
        let k = match parse_index(first.as_str().substring_char(from, to)) {
            None => { return Err(LineError::BadBranch); },
            Some(k) => k,
        };
        if words.len() == 0 {
            return Err(LineError::MissingStage);
        }
        let name = words.remove(0);
        assert(name@ == all[1]);
        assert(texts(words@) =~= all.subrange(2, all.len() as int));
        Ok(StageLine { name, node: Node::Junction(k), args: words })
    } else {
        Ok(StageLine { name: first, node: Node::Transformer, args: words })
    }
}

/// Reads the stage that one line of a description declares.
pub fn parse_line(line: &str) -> (out: Result<StageLine, LineError>)
    ensures
        read_as(out) == stage_of_line(line@),
{
    match split_words(line) {
        None => Err(LineError::Unbalanced),
        Some(words) => classify_words(words),
    }
}

/// A description that cannot be read: the first line at fault, and why.
#[derive(Clone, Copy, Debug, PartialEq, Eq, Structural)]
pub struct DescriptionError {
    pub line: usize,
    pub why: LineError,
}

/// Reads a whole description, line by line.
///
/// Succeeds when every line declares a stage, and then returns the stages in
/// line order. Otherwise reports the first line that declares none.
pub fn parse_description(lines: &Vec<String>) -> (out: Result<Vec<StageLine>, DescriptionError>)
    ensures
        match out {
            Ok(stages) => stages.len() == lines.len() && forall|i: int|
                0 <= i < lines.len() ==> stage_of_line(#[trigger] lines[i]@) == Ok::<
                    StageLineView,
                    LineError,
                >(stages[i]@),
            Err(e) => e.line < lines.len() && stage_of_line(lines[e.line as int]@) == Err::<
                StageLineView,
                LineError,
            >(e.why) && forall|i: int|
                0 <= i < e.line ==> stage_of_line(#[trigger] lines[i]@) is Ok,
        },
{
    let mut stages: Vec<StageLine> = Vec::new();
    let mut i: usize = 0;
    while i < lines.len()
        invariant
            i <= lines.len(),
            stages.len() == i,
            forall|j: int|
                0 <= j < i ==> stage_of_line(#[trigger] lines[j]@) == Ok::<StageLineView, LineError>(
                    stages[j]@,
                ),
        decreases lines.len() - i,
    {
        match parse_line(lines[i].as_str()) {
            Err(why) => {
                return Err(DescriptionError { line: i, why });
            },
            Ok(stage) => {
                stages.push(stage);
            },
        }
        i += 1;
    }
    Ok(stages)
}

/// The stage list of a description: each line's number with what it declares.
pub open spec fn nodes_of(stages: Seq<StageLine>) -> Seq<(usize, Node)> {
    Seq::new(stages.len(), |i: int| (i as usize, stages[i].node))
}

/// Numbers the stages of a description for the compiler.
pub fn number_stages(stages: &Vec<StageLine>) -> (nodes: Vec<(usize, Node)>)
    ensures
        nodes@ == nodes_of(stages@),
{
    let mut nodes: Vec<(usize, Node)> = Vec::new();
    let mut i: usize = 0;
    while i < stages.len()
        invariant
            i <= stages.len(),
            nodes@ =~= nodes_of(stages@).take(i as int),
        decreases stages.len() - i,
    {
        nodes.push((i, stages[i].node));
        i += 1;
    }
    nodes
}

/// Why a description compiles to no plan.
#[derive(Clone, Copy, Debug, PartialEq, Eq, Structural)]
pub enum CompileError {
    /// A line declares no stage.
    Line(DescriptionError),
    /// The description has fewer than two lines: it lacks a start or a close.
    TooShort,
    /// The stages cannot be wired.
    Plan(PlanError),
}

/// A compiled description: the stages as declared, and the plan that wires them.
#[derive(Debug)]
pub struct Pipeline {
    pub stages: Vec<StageLine>,
    pub plan: Plan,
}

/// The stage list that the lines of a description declare, where each line
/// declares a stage.
pub open spec fn declared(lines: Seq<String>) -> Seq<(usize, Node)> {
    Seq::new(lines.len(), |i: int| (i as usize, stage_of_line(lines[i]@).unwrap().node))
}

/// Whether every line declares a stage.
pub open spec fn all_declare(lines: Seq<String>) -> bool {
    forall|i: int| 0 <= i < lines.len() ==> stage_of_line(#[trigger] lines[i]@) is Ok
}

/// The stage list of a description has its line numbers in ascending order,
/// and, where the description has two lines or more, ends with the closing line.
pub proof fn lemma_declared_is_ordered(lines: Seq<String>)
    requires
        lines.len() <= usize::MAX,
    ensures
        declared(lines).len() == lines.len(),
        forall|i: int| 0 <= i < lines.len() ==> (#[trigger] declared(lines)[i]).0 == i,
        ascending(declared(lines)),
        lines.len() >= 2 ==> ends_with_close(declared(lines), lines.len() as usize),
{
}

/// Every path through the plan of a description of two lines or more meets
/// exactly one closing stage.
pub proof fn lemma_description_closes_once(lines: Seq<String>)
    requires
        2 <= lines.len() <= usize::MAX,
        plan_of(declared(lines), lines.len() as usize) is Ok,
    ensures
        closes(plan_of(declared(lines), lines.len() as usize).unwrap(), 0),
{
    lemma_declared_is_ordered(lines);
    lemma_every_leaf_closes_once(declared(lines), lines.len() as usize);
}

/// Compiles a description: reads every line, then plans the stages.
///
/// Fails with the first line that declares no stage; where every line
/// declares one, if the description has fewer than two lines; after that,
/// with the first branch point that cannot be split. It succeeds otherwise,
/// with the stages in line order and their plan, and every path through that
/// plan meets exactly one closing stage.
pub fn compile(lines: &Vec<String>) -> (out: Result<Pipeline, CompileError>)
    ensures
        match out {
            Ok(pipeline) => all_declare(lines@) && lines.len() >= 2 && pipeline.stages.len()
                == lines.len() && (forall|i: int|
                0 <= i < lines.len() ==> stage_of_line(#[trigger] lines[i]@) == Ok::<
                    StageLineView,
                    LineError,
                >(pipeline.stages[i]@)) && plan_of(declared(lines@), lines.len()) == Ok::<
                Plan,
                PlanError,
            >(pipeline.plan) && closes(pipeline.plan, 0),
            Err(CompileError::Line(e)) => e.line < lines.len() && stage_of_line(
                lines[e.line as int]@,
            ) == Err::<StageLineView, LineError>(e.why) && forall|i: int|
                0 <= i < e.line ==> stage_of_line(#[trigger] lines[i]@) is Ok,
            Err(CompileError::TooShort) => all_declare(lines@) && lines.len() < 2,
            Err(CompileError::Plan(e)) => all_declare(lines@) && lines.len() >= 2 && plan_of(
                declared(lines@),
                lines.len(),
            ) == Err::<Plan, PlanError>(e),
        },
{
    let stages = match parse_description(lines) {
        Err(e) => { return Err(CompileError::Line(e)); },
        Ok(stages) => stages,
    };
    if lines.len() < 2 {
        return Err(CompileError::TooShort);
    }
    let nodes = number_stages(&stages);
    assert(nodes@ =~= declared(lines@));
    match try_plan(nodes, lines.len()) {
        Err(e) => Err(CompileError::Plan(e)),
        Ok(plan) => {
            proof {
                lemma_description_closes_once(lines@);
            }
            Ok(Pipeline { stages, plan })
        },
    }
}

} // verus!
