//! Compact JSON objects whose members are texts and numbers.
use vstd::prelude::*;
use crate::text::{decimal, decimal_text, is_digit, lemma_decimal_is_digits, lemma_decimal_tells_numbers_apart};

verus! {

/// A member's value.
pub enum Value {
    /// A text.
    Text(Seq<char>),
    /// A number that is not negative.
    Number(nat),
}

/// A lower-case hexadecimal digit.
pub open spec fn hex_digit(value: nat) -> char {
    if value < 10 {
        ('0' as u32 + value) as char
    } else {
        ('a' as u32 + value - 10) as char
    }
}

/// A character as it stands inside a JSON text.
pub open spec fn escape(c: char) -> Seq<char> {
    if c == '"' {
        seq!['\\', '"']
    } else if c == '\\' {
        seq!['\\', '\\']
    } else if c == '\u{8}' {
        seq!['\\', 'b']
    } else if c == '\t' {
        seq!['\\', 't']
    } else if c == '\n' {
        seq!['\\', 'n']
    } else if c == '\u{c}' {
        seq!['\\', 'f']
    } else if c == '\r' {
        seq!['\\', 'r']
    } else if (c as u32) < 0x20 {
        seq!['\\', 'u', '0', '0', hex_digit(c as nat / 16), hex_digit(c as nat % 16)]
    } else {
        seq![c]
    }
}

/// Characters as they stand inside a JSON text.
pub open spec fn escaped(text: Seq<char>) -> Seq<char>
    decreases text.len(),
{
    if text.len() == 0 {
        Seq::empty()
    } else {
        escape(text[0]) + escaped(text.drop_first())
    }
}

/// A JSON text, with its quotes.
pub open spec fn quoted(text: Seq<char>) -> Seq<char> {
    seq!['"'] + escaped(text) + seq!['"']
}

/// A value in JSON.
pub open spec fn value_json(value: Value) -> Seq<char> {
    match value {
        Value::Text(text) => quoted(text),
        Value::Number(number) => decimal(number),
    }
}

/// A member in JSON.
pub open spec fn member_json(member: (Seq<char>, Value)) -> Seq<char> {
    quoted(member.0) + seq![':'] + value_json(member.1)
}

/// Members in JSON, with a comma between each two.
pub open spec fn members_json(members: Seq<(Seq<char>, Value)>) -> Seq<char>
    decreases members.len(),
{
    if members.len() == 0 {
        Seq::empty()
    } else if members.len() == 1 {
        member_json(members[0])
    } else {
        members_json(members.drop_last()) + seq![','] + member_json(members.last())
    }
}

/// A compact JSON object: its members in order, and no white space.
pub open spec fn object_json(members: Seq<(Seq<char>, Value)>) -> Seq<char> {
    seq!['{'] + members_json(members) + seq!['}']
}

/// A JSON text, with its quotes, through [`serde_json::to_string`]: the quote, the
/// backslash and the control characters are escaped, and every other character
/// stands for itself. Writing a text into memory does not fail.
#[verifier::external_body]
fn quote(text: &str) -> (json: String)
    ensures
        json@ == quoted(text@),
{
    serde_json::to_string(text).expect("a text has a JSON form")
}

/// What [`serde_json::from_str`] makes of a document: the text that is the value
/// of the member `key`, where the document is an object with such a member.
pub uninterp spec fn text_member(document: Seq<char>, key: Seq<char>) -> Option<Seq<char>>;

/// The text that is the value of the member `key` of a JSON document, through
/// [`serde_json::from_str`], [`serde_json::Value::get`] and
/// [`serde_json::Value::as_str`]: a function of the document and the key alone.
#[verifier::external_body]
pub(crate) fn read_text_member(document: &str, key: &str) -> (text: Option<String>)
    ensures
        (match text {
            Some(text) => Some(text@),
            None => None,
        }) == text_member(document@, key@),
{
    let value: serde_json::Value = serde_json::from_str(document).ok()?;
    Some(value.get(key)?.as_str()?.to_string())
}

proof fn lemma_members_pushed(members: Seq<(Seq<char>, Value)>, member: (Seq<char>, Value))
    ensures
        members_json(members.push(member)) == members_json(members) + (if members.len() == 0 {
            Seq::empty()
        } else {
            seq![',']
        }) + member_json(member),
{
    assert(members.push(member).drop_last() =~= members);
    if members.len() == 0 {
        assert(members_json(members.push(member)) =~= members_json(members) + Seq::empty()
            + member_json(member));
    }
}

/// A JSON object that is being written.
pub struct ObjectWriter {
    text: String,
    empty: bool,
    members: Ghost<Seq<(Seq<char>, Value)>>,
}

impl View for ObjectWriter {
    type V = Seq<(Seq<char>, Value)>;

    /// The members written so far.
    closed spec fn view(&self) -> Seq<(Seq<char>, Value)> {
        self.members@
    }
}

impl ObjectWriter {
    /// The text holds the members.
    pub closed spec fn wf(self) -> bool {
        &&& self.text@ == seq!['{'] + members_json(self.members@)
        &&& self.empty == (self.members@.len() == 0)
    }

    /// An object without members.
    pub fn new() -> (object: Self)
        ensures
            object.wf(),
            object@ == Seq::<(Seq<char>, Value)>::empty(),
    {
        proof {
            reveal_strlit("{");
        }
        let mut text = String::new();
        text.append("{");
        assert(text@ =~= seq!['{'] + members_json(Seq::empty()));
        ObjectWriter { text, empty: true, members: Ghost(Seq::empty()) }
    }

    fn member(&mut self, name: &str, value: &str, meant: Ghost<Value>)
        requires
            old(self).wf(),
            value@ == value_json(meant@),
        ensures
            final(self).wf(),
            final(self)@ == old(self)@.push((name@, meant@)),
    {
        proof {
            reveal_strlit(",");
            reveal_strlit(":");
            lemma_members_pushed(self.members@, (name@, meant@));
        }
        if !self.empty {
            self.text.append(",");
        }
        self.text.append(quote(name).as_str());
        self.text.append(":");
        self.text.append(value);
        self.empty = false;
        self.members = Ghost(self.members@.push((name@, meant@)));
        assert(self.text@ =~= seq!['{'] + members_json(self.members@));
    }

    /// Add a member that is a text.
    pub fn text(&mut self, name: &str, value: &str)
        requires
            old(self).wf(),
        ensures
            final(self).wf(),
            final(self)@ == old(self)@.push((name@, Value::Text(value@))),
    {
        let json = quote(value);
        self.member(name, json.as_str(), Ghost(Value::Text(value@)));
    }

    /// Add a member that is a number.
    pub fn number(&mut self, name: &str, value: u64)
        requires
            old(self).wf(),
        ensures
            final(self).wf(),
            final(self)@ == old(self)@.push((name@, Value::Number(value as nat))),
    {
        let json = decimal_text(value);
        self.member(name, json.as_str(), Ghost(Value::Number(value as nat)));
    }

    /// The object's JSON.
    pub fn finish(self) -> (json: String)
        requires
            self.wf(),
        ensures
            json@ == object_json(self@),
    {
        proof {
            reveal_strlit("}");
        }
        let mut json = self.text;
        json.append("}");
        assert(json@ =~= object_json(self@));
        json
    }
}

proof fn lemma_escape_is_one_line(c: char)
    ensures
        forall|i: int| 0 <= i < escape(c).len() ==> escape(c)[i] != '\n',
{
    if (c as u32) < 0x20 {
        let high = c as nat / 16;
        let low = c as nat % 16;
        assert(hex_digit(high) != '\n');
        assert(hex_digit(low) != '\n');
    }
}

proof fn lemma_escaped_is_one_line(text: Seq<char>)
    ensures
        !escaped(text).contains('\n'),
    decreases text.len(),
{
    if text.len() > 0 {
        let rest = text.drop_first();
        let head = escape(text[0]);
        lemma_escape_is_one_line(text[0]);
        lemma_escaped_is_one_line(rest);
        assert forall|i: int| 0 <= i < escaped(text).len() implies escaped(text)[i] != '\n' by {
            if i >= head.len() {
                assert(escaped(rest).contains(escaped(rest)[i - head.len()]));
            }
        }
    }
}

proof fn lemma_decimal_is_one_line(value: nat)
    ensures
        !decimal(value).contains('\n'),
    decreases value,
{
    if value >= 10 {
        let rest = decimal(value / 10);
        lemma_decimal_is_one_line(value / 10);
        assert forall|i: int| 0 <= i < decimal(value).len() implies decimal(value)[i] != '\n' by {
            if i < rest.len() {
                assert(rest.contains(rest[i]));
            }
        }
    }
}

proof fn lemma_joined_is_one_line(first: Seq<char>, second: Seq<char>)
    requires
        !first.contains('\n'),
        !second.contains('\n'),
    ensures
        !(first + second).contains('\n'),
{
    assert forall|i: int| 0 <= i < (first + second).len() implies (first + second)[i] != '\n' by {
        if i < first.len() {
            assert(first.contains(first[i]));
        } else {
            assert(second.contains(second[i - first.len()]));
        }
    }
}

proof fn lemma_quoted_is_one_line(text: Seq<char>)
    ensures
        !quoted(text).contains('\n'),
{
    lemma_escaped_is_one_line(text);
    lemma_joined_is_one_line(seq!['"'], escaped(text));
    lemma_joined_is_one_line(seq!['"'] + escaped(text), seq!['"']);
}

proof fn lemma_members_are_one_line(members: Seq<(Seq<char>, Value)>)
    ensures
        !members_json(members).contains('\n'),
    decreases members.len(),
{
    if members.len() > 0 {
        let (name, value) = members.last();
        lemma_quoted_is_one_line(name);
        match value {
            Value::Text(text) => lemma_quoted_is_one_line(text),
            Value::Number(number) => lemma_decimal_is_one_line(number),
        }
        lemma_joined_is_one_line(quoted(name), seq![':']);
        lemma_joined_is_one_line(quoted(name) + seq![':'], value_json(value));
        if members.len() > 1 {
            lemma_members_are_one_line(members.drop_last());
            lemma_joined_is_one_line(members_json(members.drop_last()), seq![',']);
            lemma_joined_is_one_line(
                members_json(members.drop_last()) + seq![','],
                member_json(members.last()),
            );
        }
    }
}

/// Whatever its members hold, an object's JSON has no line feed in it.
pub proof fn law_object_is_one_line(members: Seq<(Seq<char>, Value)>)
    ensures
        !object_json(members).contains('\n'),
{
    lemma_members_are_one_line(members);
    lemma_joined_is_one_line(seq!['{'], members_json(members));
    lemma_joined_is_one_line(seq!['{'] + members_json(members), seq!['}']);
}

/// Where two escaped characters begin the same text, they are the same character.
proof fn lemma_escape_tells_characters_apart(first: char, second: char, text: Seq<char>)
    requires
        escape(first).len() <= text.len(),
        escape(second).len() <= text.len(),
        escape(first) == text.take(escape(first).len() as int),
        escape(second) == text.take(escape(second).len() as int),
    ensures
        first == second,
{
    let (a, b) = (escape(first), escape(second));
    assert(a[0] == text[0] && b[0] == text[0]);
    if text[0] == '\\' {
        assert(a[1] == text[1] && b[1] == text[1]);
        if text[1] == 'u' {
            assert(a[4] == text[4] && b[4] == text[4]);
            assert(a[5] == text[5] && b[5] == text[5]);
        }
    }
}

/// An escaped text ends at the first quote.
proof fn lemma_escaped_ends_at_the_quote(
    first: Seq<char>,
    second: Seq<char>,
    after_first: Seq<char>,
    after_second: Seq<char>,
)
    requires
        escaped(first) + seq!['"'] + after_first == escaped(second) + seq!['"'] + after_second,
    ensures
        first == second,
        after_first == after_second,
    decreases first.len(),
{
    let text = escaped(first) + seq!['"'] + after_first;
    let other = escaped(second) + seq!['"'] + after_second;
    if first.len() == 0 || second.len() == 0 {
        if first.len() == 0 {
            assert(text[0] == '"');
        } else {
            assert(other[0] == '"');
        }
        if first.len() > 0 {
            assert(text[0] == escape(first[0])[0]);
        }
        if second.len() > 0 {
            assert(other[0] == escape(second[0])[0]);
        }
        assert(first =~= second);
        assert(after_first =~= text.skip(1));
        assert(after_second =~= other.skip(1));
    } else {
        let (a, b) = (escape(first[0]), escape(second[0]));
        assert(a =~= text.take(a.len() as int));
        assert(b =~= other.take(b.len() as int));
        lemma_escape_tells_characters_apart(first[0], second[0], text);
        assert(escaped(first.drop_first()) + seq!['"'] + after_first =~= text.skip(a.len() as int));
        assert(escaped(second.drop_first()) + seq!['"'] + after_second =~= other.skip(
            a.len() as int,
        ));
        lemma_escaped_ends_at_the_quote(
            first.drop_first(),
            second.drop_first(),
            after_first,
            after_second,
        );
        assert(first =~= seq![first[0]] + first.drop_first());
        assert(second =~= seq![second[0]] + second.drop_first());
    }
}

/// A quoted text ends at its second quote.
proof fn lemma_quoted_ends(
    first: Seq<char>,
    second: Seq<char>,
    after_first: Seq<char>,
    after_second: Seq<char>,
)
    requires
        quoted(first) + after_first == quoted(second) + after_second,
    ensures
        first == second,
        after_first == after_second,
{
    assert(escaped(first) + seq!['"'] + after_first =~= (quoted(first) + after_first).skip(1));
    assert(escaped(second) + seq!['"'] + after_second =~= (quoted(second) + after_second).skip(1));
    lemma_escaped_ends_at_the_quote(first, second, after_first, after_second);
}

/// A number ends at the first character that is no digit.
proof fn lemma_decimal_ends(
    first: nat,
    second: nat,
    after_first: Seq<char>,
    after_second: Seq<char>,
)
    requires
        decimal(first) + after_first == decimal(second) + after_second,
        after_first.len() > 0 && !is_digit(after_first[0]),
        after_second.len() > 0 && !is_digit(after_second[0]),
    ensures
        first == second,
        after_first == after_second,
{
    let (a, b) = (decimal(first), decimal(second));
    let text = a + after_first;
    let other = b + after_second;
    lemma_decimal_is_digits(first);
    lemma_decimal_is_digits(second);
    if a.len() < b.len() {
        assert(text[a.len() as int] == after_first[0]);
        assert(other[a.len() as int] == b[a.len() as int]);
    }
    if b.len() < a.len() {
        assert(other[b.len() as int] == after_second[0]);
        assert(text[b.len() as int] == a[b.len() as int]);
    }
    assert(a =~= text.take(a.len() as int));
    assert(b =~= other.take(b.len() as int));
    lemma_decimal_tells_numbers_apart(first, second);
    assert(after_first =~= text.skip(a.len() as int));
    assert(after_second =~= other.skip(b.len() as int));
}

/// A value ends where its text or number does.
proof fn lemma_value_ends(
    first: Value,
    second: Value,
    after_first: Seq<char>,
    after_second: Seq<char>,
)
    requires
        value_json(first) + after_first == value_json(second) + after_second,
        after_first.len() > 0 && !is_digit(after_first[0]),
        after_second.len() > 0 && !is_digit(after_second[0]),
    ensures
        first == second,
        after_first == after_second,
{
    let text = value_json(first) + after_first;
    let other = value_json(second) + after_second;
    match (first, second) {
        (Value::Text(a), Value::Text(b)) => {
            lemma_quoted_ends(a, b, after_first, after_second);
        },
        (Value::Number(a), Value::Number(b)) => {
            lemma_decimal_ends(a, b, after_first, after_second);
        },
        (Value::Text(a), Value::Number(b)) => {
            lemma_decimal_is_digits(b);
            assert(text[0] == '"');
            assert(other[0] == decimal(b)[0]);
        },
        (Value::Number(a), Value::Text(b)) => {
            lemma_decimal_is_digits(a);
            assert(other[0] == '"');
            assert(text[0] == decimal(a)[0]);
        },
    }
}

/// What follows the first member of an object.
spec fn after_first_member(members: Seq<(Seq<char>, Value)>) -> Seq<char> {
    if members.len() == 1 {
        Seq::empty()
    } else {
        seq![','] + members_json(members.drop_first())
    }
}

proof fn lemma_first_member(members: Seq<(Seq<char>, Value)>)
    requires
        members.len() > 0,
    ensures
        members_json(members) == member_json(members[0]) + after_first_member(members),
    decreases members.len(),
{
    if members.len() > 1 {
        let front = members.drop_last();
        lemma_first_member(front);
        assert(front[0] == members[0]);
        assert(members.drop_first().last() == members.last());
        assert(members.drop_first().drop_last() =~= front.drop_first());
        assert(members_json(members) =~= member_json(members[0]) + after_first_member(members));
    } else {
        assert(members_json(members) =~= member_json(members[0]) + after_first_member(members));
    }
}

/// Members that are followed by the brace that ends their object are determined by
/// what they are written as.
proof fn lemma_members_end_at_the_brace(
    first: Seq<(Seq<char>, Value)>,
    second: Seq<(Seq<char>, Value)>,
)
    requires
        members_json(first) + seq!['}'] == members_json(second) + seq!['}'],
    ensures
        first == second,
    decreases first.len(),
{
    let text = members_json(first) + seq!['}'];
    let other = members_json(second) + seq!['}'];
    if first.len() > 0 {
        lemma_first_member(first);
        assert(text[0] == '"');
    }
    if second.len() > 0 {
        lemma_first_member(second);
        assert(other[0] == '"');
    }
    if first.len() == 0 || second.len() == 0 {
        assert(first.len() == 0 ==> text[0] == '}');
        assert(second.len() == 0 ==> other[0] == '}');
        assert(first =~= second);
    } else {
        let (a, b) = (first[0], second[0]);
        let value_a = value_json(a.1) + (after_first_member(first) + seq!['}']);
        let value_b = value_json(b.1) + (after_first_member(second) + seq!['}']);
        assert(text =~= quoted(a.0) + (seq![':'] + value_a));
        assert(other =~= quoted(b.0) + (seq![':'] + value_b));
        lemma_quoted_ends(a.0, b.0, seq![':'] + value_a, seq![':'] + value_b);
        assert(value_a =~= (seq![':'] + value_a).skip(1));
        assert(value_b =~= (seq![':'] + value_b).skip(1));
        lemma_value_ends(
            a.1,
            b.1,
            after_first_member(first) + seq!['}'],
            after_first_member(second) + seq!['}'],
        );
        let rest_a = after_first_member(first) + seq!['}'];
        let rest_b = after_first_member(second) + seq!['}'];
        assert(first.len() == 1 ==> rest_a[0] == '}');
        assert(second.len() == 1 ==> rest_b[0] == '}');
        assert(first.len() > 1 ==> rest_a[0] == ',');
        assert(second.len() > 1 ==> rest_b[0] == ',');
        if first.len() > 1 {
            assert(members_json(first.drop_first()) + seq!['}'] =~= rest_a.skip(1));
            assert(members_json(second.drop_first()) + seq!['}'] =~= rest_b.skip(1));
            lemma_members_end_at_the_brace(first.drop_first(), second.drop_first());
            assert(first =~= seq![a] + first.drop_first());
            assert(second =~= seq![b] + second.drop_first());
        } else {
            assert(first =~= second);
        }
    }
}

/// An object loses nothing: different members are written as different objects.
pub proof fn law_object_tells_members_apart(
    first: Seq<(Seq<char>, Value)>,
    second: Seq<(Seq<char>, Value)>,
)
    requires
        object_json(first) == object_json(second),
    ensures
        first == second,
{
    assert(members_json(first) + seq!['}'] =~= object_json(first).skip(1));
    assert(members_json(second) + seq!['}'] =~= object_json(second).skip(1));
    lemma_members_end_at_the_brace(first, second);
}

/// A quoted text is at most six times as long as the text, and its quotes.
pub proof fn lemma_quoted_length(text: Seq<char>)
    ensures
        quoted(text).len() <= 6 * text.len() + 2,
    decreases text.len(),
{
    if text.len() > 0 {
        lemma_quoted_length(text.drop_first());
    }
}

/// An object is at most as long as its members, their commas, and its braces.
pub proof fn lemma_object_length(members: Seq<(Seq<char>, Value)>, longest: nat)
    requires
        forall|i: int|
            0 <= i < members.len() ==> member_json(#[trigger] members[i]).len() <= longest,
    ensures
        members_json(members).len() <= members.len() * (longest + 1),
        object_json(members).len() <= members.len() * (longest + 1) + 2,
    decreases members.len(),
{
    if members.len() > 0 {
        let front = members.drop_last();
        assert forall|i: int| 0 <= i < front.len() implies member_json(#[trigger] front[i]).len()
            <= longest by {
            assert(front[i] == members[i]);
        }
        lemma_object_length(front, longest);
        assert(member_json(members.last()).len() <= longest);
        assert(members.len() * (longest + 1) == front.len() * (longest + 1) + (longest + 1))
            by (nonlinear_arith)
            requires
                members.len() == front.len() + 1,
        ;
    }
}

} // verus!
