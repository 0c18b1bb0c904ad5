//! A path uniquely identifies some element within a document.

use vstd::prelude::*;

use crate::value::{field_of, lemma_field_at, lemma_no_field, str_equal, Json, Value};

verus! {

/// One step of a path.
#[derive(Debug)]
pub enum PathElement {
    ArrayIndex(usize),
    FieldName(String),
}

/// A step of a path as a mathematical object.
#[verifier::ext_equal]
pub enum PathStep {
    ArrayIndex(nat),
    FieldName(Seq<char>),
}

impl View for PathElement {
    type V = PathStep;

    open spec fn view(&self) -> PathStep {
        match self {
            PathElement::ArrayIndex(index) => PathStep::ArrayIndex(*index as nat),
            PathElement::FieldName(name) => PathStep::FieldName(name@),
        }
    }
}

#[derive(Debug)]
pub struct FieldPath(Vec<PathElement>);

impl View for FieldPath {
    type V = Seq<PathStep>;

    closed spec fn view(&self) -> Seq<PathStep> {
        self.0@.map_values(|element: PathElement| element@)
    }
}

/// The letters that the name of a field is made of.
pub open spec fn is_name_char(c: char) -> bool {
    ('a' <= c && c <= 'z') || ('A' <= c && c <= 'Z') || ('0' <= c && c <= '9') || c == '_' || c
        == '-'
}

pub open spec fn is_name(text: Seq<char>) -> bool {
    text.len() > 0 && forall|i: int| 0 <= i < text.len() ==> is_name_char(#[trigger] text[i])
}

pub open spec fn is_digits(text: Seq<char>) -> bool {
    text.len() > 0 && forall|i: int|
        0 <= i < text.len() ==> '0' <= #[trigger] text[i] && text[i] <= '9'
}

/// The text is a name with an index in brackets behind it.
pub open spec fn is_indexed(text: Seq<char>, name: Seq<char>, digits: Seq<char>) -> bool {
    text == name + seq!['['] + digits + seq![']'] && is_name(name) && is_digits(digits)
}

/// The number that decimal digits stand for.
pub open spec fn decimal_value(digits: Seq<char>) -> nat
    decreases digits.len(),
{
    if digits.len() == 0 {
        0
    } else {
        decimal_value(digits.drop_last()) * 10 + (digits.last() as nat - '0' as nat) as nat
    }
}

/// The decimal digits of a number.
pub open spec fn decimal_digits(n: nat) -> Seq<char>
    decreases n,
{
    if n < 10 {
        seq![('0' as nat + n) as char]
    } else {
        decimal_digits(n / 10).push(('0' as nat + n % 10) as char)
    }
}

/// The parts of a text between its dots.
pub open spec fn split_dots(text: Seq<char>) -> Seq<Seq<char>>
    decreases text.len(),
{
    if text.len() == 0 {
        seq![Seq::empty()]
    } else if text[0] == '.' {
        seq![Seq::empty()] + split_dots(text.skip(1))
    } else {
        let rest = split_dots(text.skip(1));
        seq![seq![text[0]] + rest[0]] + rest.skip(1)
    }
}

/// What one part of a path stands for: a field, an element of an array in a
/// field, or an error.
pub open spec fn parse_part(part: Seq<char>) -> Result<Seq<PathStep>, Seq<char>> {
    if part.len() == 0 {
        Err("Empty path element"@)
    } else if exists|name: Seq<char>, digits: Seq<char>| is_indexed(part, name, digits) {
        let (name, digits) = choose|name: Seq<char>, digits: Seq<char>|
            is_indexed(part, name, digits);
        Ok(seq![PathStep::FieldName(name), PathStep::ArrayIndex(decimal_value(digits))])
    } else if is_name(part) {
        Ok(seq![PathStep::FieldName(part)])
    } else {
        Err("Invalid path element: "@ + part)
    }
}

/// What the parts of a path stand for; the first error counts.
pub open spec fn parse_parts(parts: Seq<Seq<char>>) -> Result<Seq<PathStep>, Seq<char>>
    decreases parts.len(),
{
    if parts.len() == 0 {
        Ok(Seq::empty())
    } else {
        match parse_part(parts[0]) {
            Err(message) => Err(message),
            Ok(first) => match parse_parts(parts.skip(1)) {
                Err(message) => Err(message),
                Ok(rest) => Ok(first + rest),
            },
        }
    }
}

/// What a path that is written with dots and brackets stands for.
pub open spec fn parse_path(text: Seq<char>) -> Result<Seq<PathStep>, Seq<char>> {
    parse_parts(split_dots(text))
}

/// Every index in the path, up to the first error, is a number that a machine word can hold.
pub open spec fn indices_fit(parts: Seq<Seq<char>>) -> bool
    decreases parts.len(),
{
    if parts.len() == 0 {
        true
    } else {
        &&& index_fits(parts[0])
        &&& parse_part(parts[0]) is Ok ==> indices_fit(parts.skip(1))
    }
}

/// Calls `captures` of `regex::Regex` with a pattern for a name and an index in
/// brackets: a match has the name and the digits in its two groups, and there is
/// no match only if the text has no such form.
#[verifier::external_body]
fn capture_index(pattern: &str, text: &str) -> (result: Option<(String, String)>)
    requires
        pattern@ == "^([a-zA-Z0-9_\\-]+)\\[([0-9]+)\\]$"@,
    ensures
        match result {
            Some((name, digits)) => is_indexed(text@, name@, digits@),
            None => forall|name: Seq<char>, digits: Seq<char>|
                !#[trigger] is_indexed(text@, name, digits),
        },
{
    let regex = regex::Regex::new(pattern).unwrap();
    let groups = regex.captures(text)?;
    Some((groups[1].to_string(), groups[2].to_string()))
}

/// Calls `is_match` of `regex::Regex` with a pattern for a name: there is a
/// match if and only if the text is one.
#[verifier::external_body]
fn matches_name(pattern: &str, text: &str) -> (result: bool)
    requires
        pattern@ == "^[a-zA-Z0-9_\\-]+$"@,
    ensures
        result == is_name(text@),
{
    regex::Regex::new(pattern).unwrap().is_match(text)
}

/// A text has the form of a name with an index in one way only.
proof fn lemma_indexed_unique(
    text: Seq<char>,
    a: Seq<char>,
    x: Seq<char>,
    b: Seq<char>,
    y: Seq<char>,
)
    requires
        is_indexed(text, a, x),
        is_indexed(text, b, y),
    ensures
        a == b,
        x == y,
{
    if a.len() < b.len() {
        assert(text[a.len() as int] == '[');
        assert(b[a.len() as int] == text[a.len() as int]);
    }
    if b.len() < a.len() {
        assert(text[b.len() as int] == '[');
        assert(a[b.len() as int] == text[b.len() as int]);
    }
    assert(a =~= text.take(a.len() as int));
    assert(b =~= text.take(a.len() as int));
    assert(x =~= text.subrange(a.len() as int + 1, text.len() - 1));
    assert(y =~= text.subrange(a.len() as int + 1, text.len() - 1));
}

/// The value of the first digits is no larger than that of all.
proof fn lemma_decimal_prefix(digits: Seq<char>, n: int)
    requires
        0 <= n <= digits.len(),
        forall|i: int| 0 <= i < digits.len() ==> '0' <= #[trigger] digits[i] && digits[i] <= '9',
    ensures
        decimal_value(digits.take(n)) <= decimal_value(digits),
    decreases digits.len(),
{
    if n == digits.len() {
        assert(digits.take(n) =~= digits);
    } else {
        let rest = digits.drop_last();
        assert forall|i: int| 0 <= i < rest.len() implies '0' <= #[trigger] rest[i] && rest[i]
            <= '9' by {
            assert(rest[i] == digits[i]);
        }
        lemma_decimal_prefix(rest, n);
        assert(rest.take(n) =~= digits.take(n));
    }
}

/// The number that decimal digits stand for, unless a machine word cannot hold it.
fn parse_decimal(digits: &str) -> (value: Option<usize>)
    requires
        is_digits(digits@),
    ensures
        match value {
            Some(n) => n == decimal_value(digits@),
            None => decimal_value(digits@) > usize::MAX,
        },
{
    let mut value: usize = 0;
    let n: usize = digits.unicode_len();
    let mut i: usize = 0;
    assert(digits@.take(0) =~= Seq::<char>::empty());
    while i < n
        invariant
            i <= n,
            n == digits@.len(),
            is_digits(digits@),
            value == decimal_value(digits@.take(i as int)),
        decreases n - i,
    {
        let c: char = digits.get_char(i);
        proof {
            lemma_decimal_prefix(digits@, i + 1);
            assert(digits@.take(i + 1).drop_last() =~= digits@.take(i as int));
        }
        let digit: usize = (c as u32 - '0' as u32) as usize;
        if value > usize::MAX / 10 || digit > usize::MAX - value * 10 {
            return None;
        }
        value = value * 10 + digit;
        i = i + 1;
    }
    assert(digits@.take(n as int) =~= digits@);
    Some(value)
}

/// The decimal digits of a number.
pub fn decimal_string(n: u64) -> (text: String)
    ensures
        text@ == decimal_digits(n as nat),
    decreases n,
{
    let mut text = if n < 10 {
        String::new()
    } else {
        decimal_string(n / 10)
    };
    text.append(digit_str((n % 10) as u8));
    assert(text@ =~= decimal_digits(n as nat)) by {
        if n < 10 {
            assert(n % 10 == n);
        }
    }
    text
}

/// A digit as text.
fn digit_str(digit: u8) -> (text: &'static str)
    requires
        digit < 10,
    ensures
        text@ == seq![('0' as nat + digit as nat) as char],
{
    proof {
        reveal_strlit("0");
        reveal_strlit("1");
        reveal_strlit("2");
        reveal_strlit("3");
        reveal_strlit("4");
        reveal_strlit("5");
        reveal_strlit("6");
        reveal_strlit("7");
        reveal_strlit("8");
        reveal_strlit("9");
    }
    let text = if digit == 0 {
        "0"
    } else if digit == 1 {
        "1"
    } else if digit == 2 {
        "2"
    } else if digit == 3 {
        "3"
    } else if digit == 4 {
        "4"
    } else if digit == 5 {
        "5"
    } else if digit == 6 {
        "6"
    } else if digit == 7 {
        "7"
    } else if digit == 8 {
        "8"
    } else {
        "9"
    };
    assert(text@ =~= seq![('0' as nat + digit as nat) as char]);
    text
}

/// A text without a dot is one part; a text with a dot is parted there.
proof fn lemma_split_at(text: Seq<char>, k: int)
    requires
        0 <= k <= text.len(),
        forall|j: int| 0 <= j < k ==> #[trigger] text[j] != '.',
        k < text.len() ==> text[k] == '.',
    ensures
        k == text.len() ==> split_dots(text) == seq![text],
        k < text.len() ==> split_dots(text) == seq![text.take(k)] + split_dots(text.skip(k + 1)),
    decreases text.len(),
{
    if text.len() == 0 {
        assert(text =~= Seq::<char>::empty());
    } else if k == 0 {
        assert(text.take(0) =~= Seq::<char>::empty());
    } else {
        assert(text[0] != '.');
        let rest = text.skip(1);
        assert forall|j: int| 0 <= j < k - 1 implies #[trigger] rest[j] != '.' by {
            assert(rest[j] == text[j + 1]);
        }
        lemma_split_at(rest, k - 1);
        if k == text.len() {
            assert(seq![text[0]] + rest =~= text);
            assert(split_dots(text) =~= seq![text]);
        } else {
            assert(rest.skip(k) =~= text.skip(k + 1));
            assert(seq![text[0]] + rest.take(k - 1) =~= text.take(k));
            assert(split_dots(text) =~= seq![text.take(k)] + split_dots(text.skip(k + 1)));
        }
    }
}

/// The steps that were read before the rest.
spec fn prepend(
    steps: Seq<PathStep>,
    rest: Result<Seq<PathStep>, Seq<char>>,
) -> Result<Seq<PathStep>, Seq<char>> {
    match rest {
        Ok(more) => Ok(steps + more),
        Err(message) => Err(message),
    }
}

/// Steps that a path can have: the names are names, and an index stands behind a name.
pub open spec fn path_ok(steps: Seq<PathStep>) -> bool {
    forall|i: int|
        0 <= i < steps.len() ==> match #[trigger] steps[i] {
            PathStep::FieldName(name) => is_name(name),
            PathStep::ArrayIndex(index) => index <= usize::MAX && i > 0 && steps[i
                - 1] is FieldName,
        }
}

/// The place of the next dot, or the end.
fn find_dot(text: &str, start: usize, end: usize) -> (at: usize)
    requires
        start <= end,
        end == text@.len(),
    ensures
        start <= at <= end,
        forall|j: int| start <= j < at ==> #[trigger] text@[j] != '.',
        at < end ==> text@[at as int] == '.',
{
    let mut at: usize = start;
    while at < end && text.get_char(at) != '.'
        invariant
            start <= at <= end,
            end == text@.len(),
            forall|j: int| start <= j < at ==> #[trigger] text@[j] != '.',
        decreases end - at,
    {
        at = at + 1;
    }
    at
}

/// The index in one part of a path, if there is one, is a number that a machine
/// word can hold.
pub open spec fn index_fits(part: Seq<char>) -> bool {
    forall|name: Seq<char>, digits: Seq<char>| #[trigger]
        is_indexed(part, name, digits) ==> decimal_value(digits) <= usize::MAX
}

/// Reads one part of a path and adds its steps; `None` if its index does not fit.
fn add_part(elements: &mut Vec<PathElement>, part: &str) -> (result: Option<Result<(), String>>)
    requires
        path_ok(old(elements)@.map_values(|element: PathElement| element@)),
    ensures
        (result is None) == !index_fits(part@),
        match result {
            Some(Ok(())) => parse_part(part@) is Ok && final(elements)@.map_values(
                |element: PathElement| element@,
            ) == old(elements)@.map_values(|element: PathElement| element@) + parse_part(
                part@,
            )->Ok_0 && path_ok(final(elements)@.map_values(|element: PathElement| element@)),
            Some(Err(message)) => parse_part(part@) == Err::<Seq<PathStep>, Seq<char>>(message@),
            None => true,
        },
{
    let ghost before = elements@.map_values(|element: PathElement| element@);
    if part.is_empty() {
        return Some(Err("Empty path element".to_owned()));
    }
    match capture_index("^([a-zA-Z0-9_\\-]+)\\[([0-9]+)\\]$", part) {
        Some((name, digits)) => {
            proof {
                let (n, d) = choose|n: Seq<char>, d: Seq<char>| is_indexed(part@, n, d);
                lemma_indexed_unique(part@, name@, digits@, n, d);
                assert forall|n: Seq<char>, d: Seq<char>| #[trigger]
                    is_indexed(part@, n, d) implies d == digits@ by {
                    lemma_indexed_unique(part@, name@, digits@, n, d);
                }
            }
            let index: usize = match parse_decimal(digits.as_str()) {
                Some(index) => index,
                None => return None,
            };
            elements.push(PathElement::FieldName(name));
            elements.push(PathElement::ArrayIndex(index));
            let ghost after = elements@.map_values(|element: PathElement| element@);
            proof {
                assert(after =~= before + parse_part(part@)->Ok_0);
                assert forall|i: int| 0 <= i < after.len() implies match #[trigger] after[i] {
                    PathStep::FieldName(name) => is_name(name),
                    PathStep::ArrayIndex(index) => index <= usize::MAX && i > 0 && after[i
                        - 1] is FieldName,
                } by {
                    if i < before.len() {
                        assert(after[i] == before[i]);
                        if i > 0 {
                            assert(after[i - 1] == before[i - 1]);
                        }
                    }
                }
            }
            Some(Ok(()))
        },
        None => {
            if matches_name("^[a-zA-Z0-9_\\-]+$", part) {
                elements.push(PathElement::FieldName(part.to_owned()));
                let ghost after = elements@.map_values(|element: PathElement| element@);
                proof {
                    assert(after =~= before + parse_part(part@)->Ok_0);
                    assert forall|i: int| 0 <= i < after.len() implies match #[trigger] after[i] {
                        PathStep::FieldName(name) => is_name(name),
                        PathStep::ArrayIndex(index) => index <= usize::MAX && i > 0 && after[i
                            - 1] is FieldName,
                    } by {
                        if i < before.len() {
                            assert(after[i] == before[i]);
                            if i > 0 {
                                assert(after[i - 1] == before[i - 1]);
                            }
                        }
                    }
                }
                Some(Ok(()))
            } else {
                let mut message = "Invalid path element: ".to_owned();
                message.append(part);
                Some(Err(message))
            }
        },
    }
}

impl FieldPath {
    /// The path has the form of one that was read.
    pub open spec fn wf(&self) -> bool {
        path_ok(self@)
    }

    /// Reads a path: names with dots between them, each of which may have an
    /// index in brackets behind it.
    pub fn new(path_str: &str) -> (result: Result<FieldPath, String>)
        requires
            indices_fit(split_dots(path_str@)),
        ensures
            match result {
                Ok(path) => parse_path(path_str@) == Ok::<Seq<PathStep>, Seq<char>>(path@)
                    && path.wf() && path@.len() > 0,
                Err(message) => parse_path(path_str@) == Err::<Seq<PathStep>, Seq<char>>(message@),
            },
    {
        Self::try_new(path_str).unwrap()
    }

    /// Reads a path as `new` does; `None` if it has an index that a machine word
    /// cannot hold.
    pub fn try_new(path_str: &str) -> (result: Option<Result<FieldPath, String>>)
        ensures
            (result is None) == !indices_fit(split_dots(path_str@)),
            match result {
                Some(Ok(path)) => parse_path(path_str@) == Ok::<Seq<PathStep>, Seq<char>>(path@)
                    && path.wf() && path@.len() > 0,
                Some(Err(message)) => parse_path(path_str@) == Err::<Seq<PathStep>, Seq<char>>(
                    message@,
                ),
                None => true,
            },
    {
        let ghost text = path_str@;
        let mut elements: Vec<PathElement> = Vec::new();
        let end: usize = path_str.unicode_len();
        let mut start: usize = 0;
        proof {
            assert(text.skip(0) =~= text);
            let steps = elements@.map_values(|element: PathElement| element@);
            assert(steps =~= Seq::<PathStep>::empty());
            if parse_path(text) is Ok {
                assert(steps + parse_path(text)->Ok_0 =~= parse_path(text)->Ok_0);
            }
        }
        loop
            invariant
                start <= end,
                end == text.len(),
                text == path_str@,
                indices_fit(split_dots(text)) == indices_fit(split_dots(text.skip(start as int))),
                path_ok(elements@.map_values(|element: PathElement| element@)),
                parse_path(text) == prepend(
                    elements@.map_values(|element: PathElement| element@),
                    parse_parts(split_dots(text.skip(start as int))),
                ),
            decreases end - start,
        {
            let at: usize = find_dot(path_str, start, end);
            let ghost rest = text.skip(start as int);
            let ghost parts = split_dots(rest);
            proof {
                assert forall|j: int| 0 <= j < at - start implies #[trigger] rest[j] != '.' by {
                    assert(text[j + start] != '.');
                }
                lemma_split_at(rest, at - start);
                assert(rest.take(at - start) =~= text.subrange(start as int, at as int));
                assert(parts[0] == text.subrange(start as int, at as int)) by {
                    if at == end {
                        assert(rest =~= text.subrange(start as int, at as int));
                    }
                }
            }
            let part = path_str.substring_char(start, at);
            let ghost before = elements@.map_values(|element: PathElement| element@);
            match add_part(&mut elements, part) {
                None => return None,
                Some(Err(message)) => return Some(Err(message)),
                Some(Ok(())) => {},
            }
            let ghost after = elements@.map_values(|element: PathElement| element@);
            let ghost first = parse_part(part@)->Ok_0;
            assert(after.len() > 0);
            if at == end {
                proof {
                    assert(parts.skip(1) =~= Seq::<Seq<char>>::empty());
                    assert(first + Seq::<PathStep>::empty() =~= first);
                    assert(parse_parts(parts) == Ok::<Seq<PathStep>, Seq<char>>(first));
                    assert(indices_fit(parts.skip(1)));
                }
                return Some(Ok(FieldPath(elements)));
            }
            proof {
                assert(rest.skip(at - start + 1) =~= text.skip(at + 1));
                assert(parts.skip(1) =~= split_dots(text.skip(at + 1)));
                let more = parse_parts(parts.skip(1));
                if more is Ok {
                    assert(before + (first + more->Ok_0) =~= after + more->Ok_0);
                }
            }
            start = at + 1;
        }
    }
}

/// A step as text.
pub open spec fn step_text(step: PathStep) -> Seq<char> {
    match step {
        PathStep::ArrayIndex(index) => "["@ + decimal_digits(index) + "]"@,
        PathStep::FieldName(name) => name,
    }
}

/// The steps of a path as text, with a dot before each name but the first.
pub open spec fn path_text(steps: Seq<PathStep>) -> Seq<char>
    decreases steps.len(),
{
    if steps.len() == 0 {
        Seq::empty()
    } else {
        let before = path_text(steps.drop_last());
        let dot = if steps.len() > 1 && steps.last() is FieldName {
            "."@
        } else {
            Seq::empty()
        };
        before + dot + step_text(steps.last())
    }
}

impl PathElement {
    /// The step as text.
    pub fn to_string(&self) -> (text: String)
        ensures
            text@ == step_text(self@),
    {
        match self {
            PathElement::ArrayIndex(index) => {
                let mut text = "[".to_owned();
                text.append(decimal_string(*index as u64).as_str());
                text.append("]");
                text
            },
            PathElement::FieldName(name) => name.clone(),
        }
    }
}

impl Clone for PathElement {
    fn clone(&self) -> (copy: Self)
        ensures
            copy@ == self@,
    {
        match self {
            PathElement::ArrayIndex(index) => PathElement::ArrayIndex(*index),
            PathElement::FieldName(name) => PathElement::FieldName(name.clone()),
        }
    }
}

impl Clone for FieldPath {
    fn clone(&self) -> (copy: Self)
        ensures
            copy@ == self@,
    {
        let mut elements: Vec<PathElement> = Vec::new();
        let mut i: usize = 0;
        while i < self.0.len()
            invariant
                i <= self.0@.len(),
                elements@.len() == i,
                forall|j: int| 0 <= j < i ==> (#[trigger] elements@[j])@ == self.0@[j]@,
            decreases self.0@.len() - i,
        {
            elements.push(self.0[i].clone());
            i = i + 1;
        }
        let copy = FieldPath(elements);
        assert(copy@ =~= self@);
        copy
    }
}

/// Whether two steps are the same.
fn element_equal(a: &PathElement, b: &PathElement) -> (equal: bool)
    ensures
        equal == (a@ == b@),
{
    match (a, b) {
        (PathElement::ArrayIndex(x), PathElement::ArrayIndex(y)) => *x == *y,
        (PathElement::FieldName(x), PathElement::FieldName(y)) => str_equal(
            x.as_str(),
            y.as_str(),
        ),
        _ => false,
    }
}

impl FieldPath {
    /// The path as text.
    pub fn to_string(&self) -> (text: String)
        ensures
            text@ == path_text(self@),
    {
        let mut text = String::new();
        let mut i: usize = 0;
        assert(self@.take(0) =~= Seq::<PathStep>::empty());
        while i < self.0.len()
            invariant
                i <= self.0@.len(),
                text@ == path_text(self@.take(i as int)),
            decreases self.0@.len() - i,
        {
            let ghost done = self@.take(i as int);
            let ghost more = self@.take(i + 1);
            proof {
                assert(more.drop_last() =~= done);
                assert(more.last() == self.0@[i as int]@);
            }
            if i > 0 && matches!(self.0[i], PathElement::FieldName(_)) {
                text.append(".");
            }
            let ghost dotted = text@;
            text.append(self.0[i].to_string().as_str());
            assert(text@ =~= path_text(more)) by {
                if !(i > 0 && more.last() is FieldName) {
                    assert(path_text(done) + Seq::<char>::empty() =~= path_text(done));
                }
            }
            i = i + 1;
        }
        assert(self@.take(i as int) =~= self@);
        text
    }

    /// Whether two paths have the same steps.
    pub fn equals(&self, other: &FieldPath) -> (equal: bool)
        ensures
            equal == (self@ == other@),
    {
        if self.0.len() != other.0.len() {
            assert(self@.len() != other@.len());
            return false;
        }
        let mut i: usize = 0;
        while i < self.0.len()
            invariant
                i <= self.0@.len(),
                self.0@.len() == other.0@.len(),
                forall|j: int| 0 <= j < i ==> self@[j] == other@[j],
            decreases self.0@.len() - i,
        {
            if !element_equal(&self.0[i], &other.0[i]) {
                assert(self@[i as int] != other@[i as int]);
                return false;
            }
            i = i + 1;
        }
        assert(self@ =~= other@);
        true
    }
}

/// What a path leads to from a value, or why it leads nowhere. `parent` is the
/// last step that was taken.
pub open spec fn lookup_from(
    steps: Seq<PathStep>,
    json: Json,
    parent: Seq<char>,
) -> Result<Json, Seq<char>>
    decreases steps.len(),
{
    if steps.len() == 0 {
        Ok(json)
    } else {
        let next = match steps[0] {
            PathStep::ArrayIndex(index) => match json {
                Json::Array(items) => if index >= items.len() {
                    Err(
                        "Array index "@ + decimal_digits(index) + " out of bounds for "@ + parent,
                    )
                } else {
                    Ok(items[index as int])
                },
                _ => Err("Indexed non-array "@ + parent),
            },
            PathStep::FieldName(name) => match json {
                Json::Object(_) => match field_of(json, name) {
                    Some(value) => Ok(value),
                    None => Err("Unknown field "@ + name),
                },
                _ => Err("Attempt to access field "@ + name + " on non-object"@),
            },
        };
        match next {
            Ok(value) => lookup_from(steps.skip(1), value, step_text(steps[0])),
            Err(message) => Err(message),
        }
    }
}

/// What a path leads to in a document, or why it leads nowhere.
pub open spec fn lookup(steps: Seq<PathStep>, json: Json) -> Result<Json, Seq<char>> {
    lookup_from(steps, json, Seq::empty())
}

/// Finds the element of a document that a path leads to.
pub fn lookup_field(path: &FieldPath, record: &Value) -> (result: Result<Value, String>)
    ensures
        match result {
            Ok(value) => lookup(path@, record@) == Ok::<Json, Seq<char>>(value@),
            Err(message) => lookup(path@, record@) == Err::<Json, Seq<char>>(message@),
        },
{
    let mut current_val: &Value = record;
    let mut i: usize = 0;
    let ghost mut parent: Seq<char> = Seq::empty();
    assert(path@.skip(0) =~= path@);
    while i < path.0.len()
        invariant
            i <= path.0@.len(),
            parent == (if i == 0 {
                Seq::empty()
            } else {
                step_text(path@[i - 1])
            }),
            lookup(path@, record@) == lookup_from(path@.skip(i as int), current_val@, parent),
        decreases path.0@.len() - i,
    {
        let ghost steps = path@.skip(i as int);
        proof {
            assert(steps[0] == path.0@[i as int]@);
            assert(steps.skip(1) =~= path@.skip(i + 1));
        }
        match &path.0[i] {
            PathElement::ArrayIndex(index) => {
                match current_val {
                    Value::Array(items) => {
                        if *index >= items.len() {
                            let mut message = "Array index ".to_owned();
                            message.append(decimal_string(*index as u64).as_str());
                            message.append(" out of bounds for ");
                            append_parent(&mut message, path, i);
                            return Err(message);
                        }
                        assert(current_val@->Array_0[*index as int] == items@[*index as int]@);
                        current_val = &items[*index];
                    },
                    _ => {
                        let mut message = "Indexed non-array ".to_owned();
                        append_parent(&mut message, path, i);
                        return Err(message);
                    },
                }
            },
            PathElement::FieldName(name) => {
                if !current_val.is_object() {
                    let mut message = "Attempt to access field ".to_owned();
                    message.append(name.as_str());
                    message.append(" on non-object");
                    return Err(message);
                }
                match current_val.get(name.as_str()) {
                    Some(value) => {
                        current_val = value;
                    },
                    None => {
                        let mut message = "Unknown field ".to_owned();
                        message.append(name.as_str());
                        return Err(message);
                    },
                }
            },
        }
        proof {
            parent = step_text(path@[i as int]);
        }
        i = i + 1;
    }
    assert(path@.skip(i as int) =~= Seq::<PathStep>::empty());
    Ok(current_val.clone())
}

/// Adds the step before `i` to a message.
fn append_parent(message: &mut String, path: &FieldPath, i: usize)
    requires
        i <= path@.len(),
    ensures
        final(message)@ == old(message)@ + (if i == 0 {
            Seq::empty()
        } else {
            step_text(path@[i - 1])
        }),
{
    if i > 0 {
        message.append(path.0[i - 1].to_string().as_str());
    } else {
        assert(message@ + Seq::<char>::empty() =~= message@);
    }
}

/// The digits of a number stand for it.
proof fn lemma_decimal(n: nat)
    ensures
        is_digits(decimal_digits(n)),
        decimal_value(decimal_digits(n)) == n,
    decreases n,
{
    let digits = decimal_digits(n);
    if n < 10 {
        assert(digits.drop_last() =~= Seq::<char>::empty());
        assert(decimal_value(digits.drop_last()) == 0);
    } else {
        lemma_decimal(n / 10);
        assert(digits.drop_last() =~= decimal_digits(n / 10));
        assert forall|i: int| 0 <= i < digits.len() implies '0' <= #[trigger] digits[i]
            && digits[i] <= '9' by {
            if i < digits.len() - 1 {
                assert(digits[i] == decimal_digits(n / 10)[i]);
            }
        }
    }
}

spec fn no_dots(text: Seq<char>) -> bool {
    forall|i: int| 0 <= i < text.len() ==> #[trigger] text[i] != '.'
}

proof fn lemma_split_some(text: Seq<char>)
    ensures
        split_dots(text).len() > 0,
    decreases text.len(),
{
    if text.len() > 0 {
        lemma_split_some(text.skip(1));
    }
}

/// A part without dots behind a dot is a part of its own.
proof fn lemma_split_push(a: Seq<char>, b: Seq<char>)
    requires
        no_dots(b),
    ensures
        split_dots(a + seq!['.'] + b) == split_dots(a).push(b),
    decreases a.len(),
{
    let text = a + seq!['.'] + b;
    if a.len() == 0 {
        assert(text.skip(1) =~= b);
        lemma_split_at(b, b.len() as int);
        assert(text[0] == '.');
        assert(split_dots(text) =~= split_dots(a).push(b));
    } else {
        lemma_split_push(a.skip(1), b);
        lemma_split_some(a.skip(1));
        assert(text.skip(1) =~= a.skip(1) + seq!['.'] + b);
        assert(text[0] == a[0]);
        assert(split_dots(text) =~= split_dots(a).push(b));
    }
}

/// A text without dots at the end belongs to the last part.
proof fn lemma_split_extend(a: Seq<char>, b: Seq<char>)
    requires
        no_dots(b),
    ensures
        split_dots(a + b) == split_dots(a).drop_last().push(split_dots(a).last() + b),
    decreases a.len(),
{
    let text = a + b;
    if a.len() == 0 {
        assert(text =~= b);
        lemma_split_at(b, b.len() as int);
        assert(split_dots(a).last() + b =~= b);
        assert(split_dots(text) =~= split_dots(a).drop_last().push(split_dots(a).last() + b));
    } else {
        lemma_split_extend(a.skip(1), b);
        lemma_split_some(a.skip(1));
        assert(text.skip(1) =~= a.skip(1) + b);
        assert(text[0] == a[0]);
        let pa = split_dots(a.skip(1));
        let pt = split_dots(text.skip(1));
        assert(pt == pa.drop_last().push(pa.last() + b));
        let whole = split_dots(a);
        if a[0] == '.' {
            assert(split_dots(text) =~= whole.drop_last().push(whole.last() + b));
        } else {
            if pa.len() == 1 {
                assert(seq![a[0]] + (pa[0] + b) =~= (seq![a[0]] + pa[0]) + b);
                assert(pt[0] == pa[0] + b);
                assert(split_dots(text) =~= whole.drop_last().push(whole.last() + b));
            } else {
                assert(pt[0] == pa[0]);
                assert(split_dots(text) =~= whole.drop_last().push(whole.last() + b));
            }
        }
    }
}

proof fn lemma_parse_push(parts: Seq<Seq<char>>, part: Seq<char>)
    requires
        parse_parts(parts) is Ok,
        parse_part(part) is Ok,
    ensures
        parse_parts(parts.push(part)) == Ok::<Seq<PathStep>, Seq<char>>(
            parse_parts(parts)->Ok_0 + parse_part(part)->Ok_0,
        ),
    decreases parts.len(),
{
    let all = parts.push(part);
    if parts.len() == 0 {
        assert(all.skip(1) =~= Seq::<Seq<char>>::empty());
        assert(all[0] == part);
        assert(parse_parts(all.skip(1)) == Ok::<Seq<PathStep>, Seq<char>>(Seq::empty()));
        assert(parse_part(part)->Ok_0 + Seq::<PathStep>::empty() =~= Seq::<PathStep>::empty()
            + parse_part(part)->Ok_0);
    } else {
        assert(all.skip(1) =~= parts.skip(1).push(part));
        assert(all[0] == parts[0]);
        lemma_parse_push(parts.skip(1), part);
        assert(parse_parts(all)->Ok_0 =~= parse_parts(parts)->Ok_0 + parse_part(part)->Ok_0);
    }
}

proof fn lemma_name_part(name: Seq<char>)
    requires
        is_name(name),
    ensures
        no_dots(name),
        parse_part(name) == Ok::<Seq<PathStep>, Seq<char>>(seq![PathStep::FieldName(name)]),
{
    assert forall|n: Seq<char>, d: Seq<char>| !is_indexed(name, n, d) by {
        if is_indexed(name, n, d) {
            assert(name[n.len() as int] == '[');
            assert(is_name_char(name[n.len() as int]));
        }
    }
    assert forall|i: int| 0 <= i < name.len() implies #[trigger] name[i] != '.' by {
        assert(is_name_char(name[i]));
    }
}

proof fn lemma_index_part(name: Seq<char>, index: nat)
    requires
        is_name(name),
    ensures
        no_dots(step_text(PathStep::ArrayIndex(index))),
        parse_part(name + step_text(PathStep::ArrayIndex(index))) == Ok::<
            Seq<PathStep>,
            Seq<char>,
        >(seq![PathStep::FieldName(name), PathStep::ArrayIndex(index)]),
{
    let digits = decimal_digits(index);
    lemma_decimal(index);
    reveal_strlit("[");
    reveal_strlit("]");
    let tail = step_text(PathStep::ArrayIndex(index));
    assert(tail =~= seq!['['] + digits + seq![']']);
    let part = name + tail;
    assert(part =~= name + seq!['['] + digits + seq![']']);
    assert(is_indexed(part, name, digits));
    let (n, d) = choose|n: Seq<char>, d: Seq<char>| is_indexed(part, n, d);
    lemma_indexed_unique(part, name, digits, n, d);
    assert forall|i: int| 0 <= i < tail.len() implies #[trigger] tail[i] != '.' by {
        if 0 < i < tail.len() - 1 {
            assert(tail[i] == digits[i - 1]);
        }
    }
}

/// A path that is written out and read again is the same path.
pub proof fn law_path_text_is_read_back(steps: Seq<PathStep>)
    requires
        path_ok(steps),
        steps.len() > 0,
    ensures
        parse_path(path_text(steps)) == Ok::<Seq<PathStep>, Seq<char>>(steps),
        indices_fit(split_dots(path_text(steps))),
{
    lemma_text_parts(steps);
    lemma_parts_fit(split_dots(path_text(steps)));
}

/// Parts that have no large index fit.
proof fn lemma_parts_fit(parts: Seq<Seq<char>>)
    requires
        parse_parts(parts) is Ok,
        path_ok(parse_parts(parts)->Ok_0) || small_indices(parse_parts(parts)->Ok_0),
    ensures
        indices_fit(parts),
    decreases parts.len(),
{
    if parts.len() > 0 {
        let steps = parse_parts(parts)->Ok_0;
        let first = parse_part(parts[0])->Ok_0;
        let rest = parse_parts(parts.skip(1))->Ok_0;
        assert(steps == first + rest);
        assert(small_indices(steps));
        assert forall|i: int| 0 <= i < rest.len() implies ((
        #[trigger] rest[i]) matches PathStep::ArrayIndex(index) ==> index <= usize::MAX) by {
            assert(steps[first.len() + i] == rest[i]);
        }
        lemma_parts_fit(parts.skip(1));
        assert forall|name: Seq<char>, digits: Seq<char>| #[trigger]
            is_indexed(parts[0], name, digits) implies decimal_value(digits) <= usize::MAX by {
            let (n, d) = choose|n: Seq<char>, d: Seq<char>| is_indexed(parts[0], n, d);
            lemma_indexed_unique(parts[0], name, digits, n, d);
            assert(first[1] == PathStep::ArrayIndex(decimal_value(digits)));
            assert(steps[1] == first[1]);
        }
    }
}

spec fn small_indices(steps: Seq<PathStep>) -> bool {
    forall|i: int|
        0 <= i < steps.len() ==> ((#[trigger] steps[i]) matches PathStep::ArrayIndex(index)
            ==> index <= usize::MAX)
}

proof fn lemma_text_parts(steps: Seq<PathStep>)
    requires
        path_ok(steps),
        steps.len() > 0,
    ensures
        parse_parts(split_dots(path_text(steps))) == Ok::<Seq<PathStep>, Seq<char>>(steps),
        split_dots(path_text(steps)).len() > 0,
        steps.last() matches PathStep::FieldName(name) ==> split_dots(path_text(steps)).last()
            == name && parse_parts(split_dots(path_text(steps)).drop_last()) == Ok::<
            Seq<PathStep>,
            Seq<char>,
        >(steps.drop_last()),
    decreases steps.len(),
{
    let less = steps.drop_last();
    let last = steps.last();
    let text = path_text(steps);
    assert forall|i: int| 0 <= i < less.len() implies match #[trigger] less[i] {
        PathStep::FieldName(name) => is_name(name),
        PathStep::ArrayIndex(index) => index <= usize::MAX && i > 0 && less[i - 1] is FieldName,
    } by {
        assert(less[i] == steps[i]);
        if i > 0 {
            assert(less[i - 1] == steps[i - 1]);
        }
    }
    assert(steps[steps.len() - 1] == last);
    match last {
        PathStep::FieldName(name) => {
            lemma_name_part(name);
            if less.len() == 0 {
                assert(less =~= Seq::<PathStep>::empty());
                assert(text =~= name);
                lemma_split_at(name, name.len() as int);
                assert(split_dots(text).drop_last() =~= Seq::<Seq<char>>::empty());
                assert(split_dots(text).skip(1) =~= Seq::<Seq<char>>::empty());
                assert(seq![last] + Seq::<PathStep>::empty() =~= steps);
            } else {
                lemma_text_parts(less);
                reveal_strlit(".");
                assert("."@ =~= seq!['.']);
                let before = path_text(less);
                lemma_split_push(before, name);
                assert(text == before + seq!['.'] + name);
                let parts = split_dots(before);
                lemma_parse_push(parts, name);
                assert(parts.push(name).drop_last() =~= parts);
                assert(less + seq![last] =~= steps);
            }
        },
        PathStep::ArrayIndex(index) => {
            let k = steps.len() - 2;
            assert(steps[k] is FieldName);
            assert(less.last() == steps[k]);
            let name = steps[k]->FieldName_0;
            assert(is_name(name));
            lemma_text_parts(less);
            lemma_index_part(name, index);
            let before = path_text(less);
            let tail = step_text(last);
            assert(text =~= before + tail);
            lemma_split_extend(before, tail);
            let parts = split_dots(before);
            lemma_parse_push(parts.drop_last(), name + tail);
            assert(less.drop_last() + seq![PathStep::FieldName(name), last] =~= steps);
        },
    }
}

/// An empty path leads to the document itself.
pub proof fn law_empty_path_leads_to_the_document(json: Json)
    ensures
        lookup(Seq::empty(), json) == Ok::<Json, Seq<char>>(json),
{
}

/// A path with one more step leads from where the path led before to an item of the
/// array or a field of the object that is there. It leads nowhere if there is no such
/// item or field, or if the path led nowhere before.
pub proof fn law_lookup_takes_one_more_step(steps: Seq<PathStep>, step: PathStep, json: Json)
    ensures
        ({
            let found = lookup(steps.push(step), json);
            match lookup(steps, json) {
                Err(message) => found == Err::<Json, Seq<char>>(message),
                Ok(Json::Array(items)) => match step {
                    PathStep::ArrayIndex(k) => {
                        &&& k < items.len() ==> found == Ok::<Json, Seq<char>>(items[k as int])
                        &&& k >= items.len() ==> found is Err
                    },
                    PathStep::FieldName(_) => found is Err,
                },
                Ok(Json::Object(fields)) => match step {
                    PathStep::ArrayIndex(_) => found is Err,
                    PathStep::FieldName(name) => {
                        &&& forall|i: int|
                            0 <= i < fields.len() && (#[trigger] fields[i]).0 == name && (forall|
                                j: int,
                            |
                                0 <= j < i ==> (#[trigger] fields[j]).0 != name) ==> found == Ok::<
                                Json,
                                Seq<char>,
                            >(fields[i].1)
                        &&& (forall|i: int| 0 <= i < fields.len() ==> (#[trigger] fields[i]).0 != name)
                            ==> found is Err
                    },
                },
                Ok(_) => found is Err,
            }
        }),
{
    reveal_with_fuel(lookup_from, 2);
    lemma_lookup_push(steps, step, json, Seq::empty());
    if let Ok(value) = lookup(steps, json) {
        assert(seq![step].skip(1) =~= Seq::<PathStep>::empty());
        if let (Json::Object(fields), PathStep::FieldName(name)) = (value, step) {
            assert forall|i: int|
                0 <= i < fields.len() && (#[trigger] fields[i]).0 == name && (forall|j: int|
                    0 <= j < i ==> (#[trigger] fields[j]).0 != name) implies lookup(
                steps.push(step),
                json,
            ) == Ok::<Json, Seq<char>>(fields[i].1) by {
                lemma_field_at(fields, i, name);
            }
            if forall|i: int| 0 <= i < fields.len() ==> (#[trigger] fields[i]).0 != name {
                lemma_no_field(fields, name);
            }
        }
    }
}

/// Why a path leads nowhere. The message names the last step before the one that
/// could not be taken, or the field that was asked for.
pub proof fn law_failed_lookup_says_why(steps: Seq<PathStep>, step: PathStep, json: Json)
    requires
        lookup(steps, json) is Ok,
    ensures
        ({
            let parent = if steps.len() == 0 {
                Seq::empty()
            } else {
                path_text(seq![steps.last()])
            };
            let found = lookup(steps.push(step), json);
            match (step, lookup(steps, json)->Ok_0) {
                (PathStep::ArrayIndex(k), Json::Array(items)) => k >= items.len() ==> found == Err::<
                    Json,
                    Seq<char>,
                >("Array index "@ + decimal_digits(k) + " out of bounds for "@ + parent),
                (PathStep::ArrayIndex(_), _) => found == Err::<Json, Seq<char>>(
                    "Indexed non-array "@ + parent,
                ),
                (PathStep::FieldName(name), Json::Object(_)) => found is Err ==> found == Err::<
                    Json,
                    Seq<char>,
                >("Unknown field "@ + name),
                (PathStep::FieldName(name), _) => found == Err::<Json, Seq<char>>(
                    "Attempt to access field "@ + name + " on non-object"@,
                ),
            }
        }),
{
    reveal_with_fuel(lookup_from, 2);
    lemma_lookup_push(steps, step, json, Seq::empty());
    assert(seq![step].skip(1) =~= Seq::<PathStep>::empty());
    if steps.len() > 0 {
        let one = seq![steps.last()];
        assert(one.drop_last() =~= Seq::<PathStep>::empty());
        assert(path_text(one.drop_last()) =~= Seq::<char>::empty());
        assert(path_text(one) =~= step_text(steps.last()));
    }
}

/// The last step of a path is taken from where the others lead.
proof fn lemma_lookup_push(steps: Seq<PathStep>, step: PathStep, json: Json, parent: Seq<char>)
    ensures
        ({
            let last = if steps.len() == 0 {
                parent
            } else {
                step_text(steps.last())
            };
            lookup_from(steps.push(step), json, parent) == match lookup_from(steps, json, parent) {
                Err(message) => Err(message),
                Ok(value) => lookup_from(seq![step], value, last),
            }
        }),
    decreases steps.len(),
{
    reveal_with_fuel(lookup_from, 2);
    let all = steps.push(step);
    if steps.len() == 0 {
        assert(all =~= seq![step]);
    } else {
        assert(all.skip(1) =~= steps.skip(1).push(step));
        assert(all[0] == steps[0]);
        let next = lookup_from(seq![steps[0]], json, parent);
        assert(seq![steps[0]].skip(1) =~= Seq::<PathStep>::empty());
        if let Ok(value) = next {
            lemma_lookup_push(steps.skip(1), step, value, step_text(steps[0]));
        }
    }
}

/// Decimal digits count tens, hundreds and so on, from the last one to the first.
pub proof fn law_decimal_digits_have_values(digits: Seq<char>, digit: char)
    requires
        '0' <= digit && digit <= '9',
    ensures
        decimal_value(Seq::empty()) == 0,
        decimal_value(digits.push(digit)) == 10 * decimal_value(digits) + (digit as nat
            - '0' as nat),
{
    assert(digits.push(digit).drop_last() =~= digits);
}

/// A number is written with decimal digits that stand for it, without a zero in front
/// unless it is zero itself.
pub proof fn law_numbers_are_written_in_digits(n: nat)
    ensures
        decimal_value(decimal_digits(n)) == n,
        decimal_digits(n).len() > 0,
        n == 0 ==> decimal_digits(n).len() == 1,
        forall|i: int|
            0 <= i < decimal_digits(n).len() ==> '0' <= #[trigger] decimal_digits(n)[i]
                && decimal_digits(n)[i] <= '9',
        n > 0 ==> decimal_digits(n)[0] != '0',
    decreases n,
{
    lemma_decimal(n);
    if n >= 10 {
        law_numbers_are_written_in_digits(n / 10);
        assert(decimal_digits(n)[0] == decimal_digits(n / 10)[0]);
    }
}

/// A text of letters, digits, underscores and hyphens is the name of a field.
pub proof fn law_name_is_a_path(name: Seq<char>)
    requires
        name.len() > 0,
        forall|i: int|
            0 <= i < name.len() ==> {
                let c = #[trigger] name[i];
                ||| 'a' <= c && c <= 'z'
                ||| 'A' <= c && c <= 'Z'
                ||| '0' <= c && c <= '9'
                ||| c == '_'
                ||| c == '-'
            },
    ensures
        parse_path(name) == Ok::<Seq<PathStep>, Seq<char>>(seq![PathStep::FieldName(name)]),
        indices_fit(split_dots(name)),
{
    assert(is_name(name)) by {
        assert forall|i: int| 0 <= i < name.len() implies is_name_char(#[trigger] name[i]) by {}
    }
    lemma_name_part(name);
    lemma_one_part(name);
    lemma_parts_fit(split_dots(name));
}

/// Digits in brackets behind the name of a field stand for an item of the array there.
pub proof fn law_index_behind_a_name(name: Seq<char>, digits: Seq<char>)
    requires
        parse_path(name) == Ok::<Seq<PathStep>, Seq<char>>(seq![PathStep::FieldName(name)]),
        digits.len() > 0,
        forall|i: int| 0 <= i < digits.len() ==> '0' <= #[trigger] digits[i] && digits[i] <= '9',
    ensures
        parse_path(name + seq!['['] + digits + seq![']']) == Ok::<Seq<PathStep>, Seq<char>>(
            seq![PathStep::FieldName(name), PathStep::ArrayIndex(decimal_value(digits))],
        ),
        indices_fit(split_dots(name + seq!['['] + digits + seq![']'])) == (decimal_value(digits)
            <= usize::MAX),
{
    lemma_single_name(name);
    let text = name + seq!['['] + digits + seq![']'];
    lemma_name_part(name);
    assert(no_dots(text)) by {
        assert forall|i: int| 0 <= i < text.len() implies #[trigger] text[i] != '.' by {
            if i < name.len() {
                assert(text[i] == name[i]);
            } else if name.len() < i < text.len() - 1 {
                assert(text[i] == digits[i - name.len() - 1]);
            }
        }
    }
    lemma_one_part(text);
    assert(is_indexed(text, name, digits));
    let (n, d) = choose|n: Seq<char>, d: Seq<char>| is_indexed(text, n, d);
    lemma_indexed_unique(text, name, digits, n, d);
    assert(split_dots(text).skip(1) =~= Seq::<Seq<char>>::empty());
    assert(indices_fit(split_dots(text).skip(1)));
    assert(index_fits(text) == (decimal_value(digits) <= usize::MAX)) by {
        if decimal_value(digits) <= usize::MAX {
            assert forall|a: Seq<char>, x: Seq<char>| #[trigger]
                is_indexed(text, a, x) implies decimal_value(x) <= usize::MAX by {
                lemma_indexed_unique(text, name, digits, a, x);
            }
        }
    }
}

/// A path with a dot is the path in front of the dot with that behind it added, and
/// has the errors of either. Its indices fit if those of both do, as far as it is read.
pub proof fn law_dots_join_paths(first: Seq<char>, rest: Seq<char>)
    requires
        forall|i: int| 0 <= i < first.len() ==> #[trigger] first[i] != '.',
    ensures
        parse_path(first + seq!['.'] + rest) == match (parse_path(first), parse_path(rest)) {
            (Err(message), _) => Err(message),
            (Ok(_), Err(message)) => Err(message),
            (Ok(a), Ok(b)) => Ok(a + b),
        },
        indices_fit(split_dots(first + seq!['.'] + rest)) == (indices_fit(split_dots(first)) && (
        parse_path(first) is Ok ==> indices_fit(split_dots(rest)))),
{
    let text = first + seq!['.'] + rest;
    let k = first.len() as int;
    assert forall|j: int| 0 <= j < k implies #[trigger] text[j] != '.' by {
        assert(text[j] == first[j]);
    }
    lemma_split_at(text, k);
    assert(text.take(k) =~= first);
    assert(text.skip(k + 1) =~= rest);
    lemma_one_part(first);
    let parts = split_dots(text);
    assert(parts[0] == first);
    assert(parts.skip(1) =~= split_dots(rest));
    assert(seq![first].skip(1) =~= Seq::<Seq<char>>::empty());
    assert(indices_fit(seq![first].skip(1)));
    assert(indices_fit(seq![first]) == index_fits(first));
}

/// A text without a dot that is no name, or no name with an index behind it, is no path.
pub proof fn law_other_texts_are_no_paths(text: Seq<char>)
    requires
        forall|i: int| 0 <= i < text.len() ==> #[trigger] text[i] != '.',
    ensures
        text.len() == 0 ==> parse_path(text) == Err::<Seq<PathStep>, Seq<char>>(
            "Empty path element"@,
        ),
        text.len() > 0 && parse_path(text) is Err ==> parse_path(text) == Err::<
            Seq<PathStep>,
            Seq<char>,
        >("Invalid path element: "@ + text),
        parse_path(text) is Err ==> indices_fit(split_dots(text)),
        parse_path(text) matches Ok(steps) ==> {
            &&& 1 <= steps.len() <= 2
            &&& steps[0] is FieldName
            &&& ({
                let name = steps[0]->FieldName_0;
                &&& name.len() > 0
                &&& forall|i: int|
                    0 <= i < name.len() ==> {
                        let c = #[trigger] name[i];
                        ||| 'a' <= c && c <= 'z'
                        ||| 'A' <= c && c <= 'Z'
                        ||| '0' <= c && c <= '9'
                        ||| c == '_'
                        ||| c == '-'
                    }
                &&& steps.len() == 1 ==> text == name
                &&& steps.len() == 2 ==> exists|digits: Seq<char>|
                    #![trigger decimal_value(digits)]
                    {
                        &&& text == name + seq!['['] + digits + seq![']']
                        &&& steps[1] == PathStep::ArrayIndex(decimal_value(digits))
                        &&& digits.len() > 0
                        &&& forall|i: int|
                            0 <= i < digits.len() ==> '0' <= #[trigger] digits[i] && digits[i] <= '9'
                    }
            })
        },
{
    lemma_one_part(text);
    assert(seq![text].skip(1) =~= Seq::<Seq<char>>::empty());
    assert(indices_fit(seq![text].skip(1)));
    if text.len() == 0 {
        assert(index_fits(text)) by {
            assert forall|n: Seq<char>, d: Seq<char>| !is_indexed(text, n, d) by {
                assert((n + seq!['['] + d + seq![']']).len() > 0);
            }
        }
    }
    if exists|n: Seq<char>, d: Seq<char>| is_indexed(text, n, d) {
        let (n, d) = choose|n: Seq<char>, d: Seq<char>| is_indexed(text, n, d);
        assert(is_indexed(text, n, d));
        assert(parse_path(text)->Ok_0[1] == PathStep::ArrayIndex(decimal_value(d)));
        assert forall|i: int| 0 <= i < n.len() implies is_name_char(#[trigger] n[i]) by {}
    } else if is_name(text) {
        assert forall|i: int| 0 <= i < text.len() implies is_name_char(#[trigger] text[i]) by {}
    }
}

/// A text without dots is read as one part.
proof fn lemma_one_part(text: Seq<char>)
    requires
        forall|i: int| 0 <= i < text.len() ==> #[trigger] text[i] != '.',
    ensures
        split_dots(text) == seq![text],
        parse_path(text) == parse_part(text),
{
    lemma_split_at(text, text.len() as int);
    reveal_with_fuel(parse_parts, 2);
    assert(seq![text].skip(1) =~= Seq::<Seq<char>>::empty());
    if let Ok(steps) = parse_part(text) {
        assert(steps + Seq::<PathStep>::empty() =~= steps);
    }
}

/// What is read as its own name is one.
proof fn lemma_single_name(name: Seq<char>)
    requires
        parse_path(name) == Ok::<Seq<PathStep>, Seq<char>>(seq![PathStep::FieldName(name)]),
    ensures
        is_name(name),
{
    let parts = split_dots(name);
    lemma_split_some(name);
    let first = parse_part(parts[0])->Ok_0;
    let rest = parse_parts(parts.skip(1))->Ok_0;
    assert((first + rest)[0] == first[0]);
    assert(first[0] == PathStep::FieldName(name));
}

/// The text of a path is made of those of its steps: a name, with a dot in front if it is
/// not the first step, or an index in brackets.
pub proof fn law_path_text_joins_steps(steps: Seq<PathStep>, name: Seq<char>, index: nat)
    ensures
        path_text(Seq::empty()) == Seq::<char>::empty(),
        path_text(steps.push(PathStep::FieldName(name))) == (if steps.len() == 0 {
            name
        } else {
            path_text(steps) + seq!['.'] + name
        }),
        path_text(steps.push(PathStep::ArrayIndex(index))) == path_text(steps) + seq!['[']
            + decimal_digits(index) + seq![']'],
{
    reveal_strlit(".");
    reveal_strlit("[");
    reveal_strlit("]");
    assert("."@ =~= seq!['.']);
    let a = steps.push(PathStep::FieldName(name));
    let b = steps.push(PathStep::ArrayIndex(index));
    assert(a.drop_last() =~= steps);
    assert(b.drop_last() =~= steps);
    if steps.len() == 0 {
        assert(path_text(steps) =~= Seq::<char>::empty());
        assert(path_text(a) =~= name);
    }
    assert(path_text(b) =~= path_text(steps) + seq!['['] + decimal_digits(index) + seq![']']);
}

} // verus!
