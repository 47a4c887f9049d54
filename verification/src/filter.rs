//! Track filters: a small expression language over track attributes, such as
//! `type==video&&width>=1280`, its parser, and which tracks a filter keeps.
//!
//! A filter is comparisons joined by `&&` and `||`, with `&&` binding tighter
//! and both grouping to the left; parentheses group. A comparison names an
//! attribute, then an operator, then a value: a whole number for the numeric
//! attributes, a word of letters, digits, `.`, `-`, `_` and `/` for the others.
//! Only numeric attributes take the ordering operators. Spaces, tabs and line
//! breaks may stand around every token.

use vstd::prelude::*;

use crate::charseq::{
    chars_of, copy_range, digits_value, is_digit, parse_u64, spells, string_of, unsigned_digits,
};

verus! {

/// A property of a track that a filter can compare.
#[derive(Debug, Clone, Copy, PartialEq, Eq, Structural)]
pub enum Attribute {
    Type,
    Format,
    Id,
    Codec,
    FrameRate,
    Language,
    Role,
    Width,
    Height,
    SampleRate,
    Channels,
    TileSize,
}

/// How a comparison relates a track's attribute to the value it names.
#[derive(Debug, Clone, Copy, PartialEq, Eq, Structural)]
pub enum Operator {
    Equal,
    NotEqual,
    Less,
    LessOrEqual,
    Greater,
    GreaterOrEqual,
}

/// The attribute a filter calls `name`.
pub open spec fn attribute_named(name: Seq<char>) -> Option<Attribute> {
    if name == "type"@ {
        Some(Attribute::Type)
    } else if name == "format"@ {
        Some(Attribute::Format)
    } else if name == "id"@ {
        Some(Attribute::Id)
    } else if name == "codec"@ {
        Some(Attribute::Codec)
    } else if name == "frame_rate"@ {
        Some(Attribute::FrameRate)
    } else if name == "language"@ {
        Some(Attribute::Language)
    } else if name == "role"@ {
        Some(Attribute::Role)
    } else if name == "width"@ {
        Some(Attribute::Width)
    } else if name == "height"@ {
        Some(Attribute::Height)
    } else if name == "sample_rate"@ {
        Some(Attribute::SampleRate)
    } else if name == "channels"@ {
        Some(Attribute::Channels)
    } else if name == "tile_size"@ {
        Some(Attribute::TileSize)
    } else {
        None
    }
}

/// The attributes whose values are whole numbers.
pub open spec fn numeric(a: Attribute) -> bool {
    match a {
        Attribute::Width | Attribute::Height | Attribute::SampleRate | Attribute::Channels
        | Attribute::TileSize => true,
        _ => false,
    }
}

/// The operators that order, rather than only tell equal from unequal.
pub open spec fn ordering(op: Operator) -> bool {
    !(op is Equal || op is NotEqual)
}

/// Whether `op` holds of two values that compare as `order` says: negative when
/// the first is smaller, zero when they are equal, positive when it is larger.
pub open spec fn holds(op: Operator, order: int) -> bool {
    match op {
        Operator::Equal => order == 0,
        Operator::NotEqual => order != 0,
        Operator::Less => order < 0,
        Operator::LessOrEqual => order <= 0,
        Operator::Greater => order > 0,
        Operator::GreaterOrEqual => order >= 0,
    }
}

impl Attribute {
    /// The attribute called `name`, if there is one.
    pub fn parse(name: &str) -> (a: Option<Attribute>)
        ensures
            a == attribute_named(name@),
    {
        let chars = chars_of(name);
        named(chars.as_slice())
    }

    /// Whether the attribute's values are whole numbers.
    pub fn is_numeric(self) -> (n: bool)
        ensures
            n == numeric(self),
    {
        match self {
            Attribute::Width | Attribute::Height | Attribute::SampleRate | Attribute::Channels
            | Attribute::TileSize => true,
            _ => false,
        }
    }
}

impl Operator {
    /// Whether the operator orders values, rather than only telling equal from
    /// unequal.
    pub fn is_ordering(self) -> (o: bool)
        ensures
            o == ordering(self),
    {
        match self {
            Operator::Equal | Operator::NotEqual => false,
            _ => true,
        }
    }

    /// Whether the operator holds of two values that compare as `order` says.
    pub fn holds_for(self, order: i8) -> (h: bool)
        ensures
            h == holds(self, order as int),
    {
        match self {
            Operator::Equal => order == 0,
            Operator::NotEqual => order != 0,
            Operator::Less => order < 0,
            Operator::LessOrEqual => order <= 0,
            Operator::Greater => order > 0,
            Operator::GreaterOrEqual => order >= 0,
        }
    }
}

fn named(name: &[char]) -> (a: Option<Attribute>)
    ensures
        a == attribute_named(name@),
{
    if spells(name, "type") {
        Some(Attribute::Type)
    } else if spells(name, "format") {
        Some(Attribute::Format)
    } else if spells(name, "id") {
        Some(Attribute::Id)
    } else if spells(name, "codec") {
        Some(Attribute::Codec)
    } else if spells(name, "frame_rate") {
        Some(Attribute::FrameRate)
    } else if spells(name, "language") {
        Some(Attribute::Language)
    } else if spells(name, "role") {
        Some(Attribute::Role)
    } else if spells(name, "width") {
        Some(Attribute::Width)
    } else if spells(name, "height") {
        Some(Attribute::Height)
    } else if spells(name, "sample_rate") {
        Some(Attribute::SampleRate)
    } else if spells(name, "channels") {
        Some(Attribute::Channels)
    } else if spells(name, "tile_size") {
        Some(Attribute::TileSize)
    } else {
        None
    }
}

/// The kinds of character the grammar tells apart.
#[derive(Clone, Copy)]
pub enum CharClass {
    /// A space, tab, carriage return or line feed.
    Space,
    /// What an attribute name is made of: `a` to `z` and `_`.
    Name,
    /// An ASCII decimal digit.
    Digit,
    /// What a text value is made of: ASCII letters and digits, `.`, `-`, `_`, `/`.
    Word,
}

/// Whether `c` belongs to `class`.
pub open spec fn in_class(class: CharClass, c: char) -> bool {
    match class {
        CharClass::Space => c == ' ' || c == '\t' || c == '\r' || c == '\n',
        CharClass::Name => ('a' <= c && c <= 'z') || c == '_',
        CharClass::Digit => '0' <= c && c <= '9',
        CharClass::Word => ('a' <= c && c <= 'z') || ('A' <= c && c <= 'Z') || ('0' <= c && c
            <= '9') || c == '.' || c == '-' || c == '_' || c == '/',
    }
}

/// Where the run of `class` characters that starts at `p` ends.
pub open spec fn run_end(s: Seq<char>, p: int, class: CharClass) -> int
    decreases s.len() - p,
{
    if 0 <= p < s.len() && in_class(class, s[p]) {
        run_end(s, p + 1, class)
    } else {
        p
    }
}

/// Where the whitespace that starts at `p` ends.
pub open spec fn skip_space(s: Seq<char>, p: int) -> int {
    run_end(s, p, CharClass::Space)
}

/// `s` holds the character `c` at `p`.
pub open spec fn at(s: Seq<char>, p: int, c: char) -> bool {
    0 <= p < s.len() && s[p] == c
}

/// `s` holds `a` then `b` from `p` on.
pub open spec fn pair_at(s: Seq<char>, p: int, a: char, b: char) -> bool {
    at(s, p, a) && at(s, p + 1, b)
}

/// A run of `class` characters ends no earlier than it starts and within `s`,
/// passes only `class` characters, and stops at one that is not of `class`.
pub proof fn lemma_run_end(s: Seq<char>, p: int, class: CharClass)
    requires
        0 <= p <= s.len(),
    ensures
        p <= run_end(s, p, class) <= s.len(),
        forall|k: int| p <= k < run_end(s, p, class) ==> in_class(class, #[trigger] s[k]),
        run_end(s, p, class) < s.len() ==> !in_class(class, s[run_end(s, p, class)]),
    decreases s.len() - p,
{
    if p < s.len() && in_class(class, s[p]) {
        lemma_run_end(s, p + 1, class);
    }
}


/// A value a comparison names, as the filter's text gives it.
#[derive(Debug, Clone, PartialEq, Eq)]
pub enum Literal {
    Text(String),
    Number(u64),
}

/// What a [`Literal`] stands for.
pub enum Value {
    Text(Seq<char>),
    Number(u64),
}

impl Literal {
    /// What the literal stands for.
    pub open spec fn value(&self) -> Value {
        match self {
            Literal::Text(t) => Value::Text(t@),
            Literal::Number(n) => Value::Number(*n),
        }
    }
}

/// One comparison of a filter: `attribute operator value`.
#[derive(Debug, Clone, PartialEq, Eq)]
pub struct Comparison {
    pub attribute: Attribute,
    pub operator: Operator,
    pub value: Literal,
}

/// A parsed filter expression.
#[derive(Debug, PartialEq, Eq)]
pub enum Expression {
    And(Box<Expression>, Box<Expression>),
    Or(Box<Expression>, Box<Expression>),
    Comparison(Comparison),
}

/// The meaning of an [`Expression`]: its tree, with values as character sequences.
pub enum Formula {
    And(Box<Formula>, Box<Formula>),
    Or(Box<Formula>, Box<Formula>),
    Compare(Attribute, Operator, Value),
}

impl Expression {
    /// The meaning of the expression.
    pub open spec fn formula(&self) -> Formula
        decreases self,
    {
        match self {
            Expression::And(l, r) => Formula::And(Box::new(l.formula()), Box::new(r.formula())),
            Expression::Or(l, r) => Formula::Or(Box::new(l.formula()), Box::new(r.formula())),
            Expression::Comparison(c) => Formula::Compare(c.attribute, c.operator, c.value.value()),
        }
    }
}

/// The comparison operator at `p`, and where it ends.
pub open spec fn operator_at(s: Seq<char>, p: int) -> Option<(Operator, int)> {
    if pair_at(s, p, '=', '=') {
        Some((Operator::Equal, p + 2))
    } else if pair_at(s, p, '!', '=') {
        Some((Operator::NotEqual, p + 2))
    } else if pair_at(s, p, '<', '=') {
        Some((Operator::LessOrEqual, p + 2))
    } else if pair_at(s, p, '>', '=') {
        Some((Operator::GreaterOrEqual, p + 2))
    } else if at(s, p, '<') {
        Some((Operator::Less, p + 1))
    } else if at(s, p, '>') {
        Some((Operator::Greater, p + 1))
    } else {
        None
    }
}

/// The value at `p`, and where it ends: a whole number that fits in a `u64`
/// when `number` holds, a word otherwise; either at least one character long.
/// Where there is none, the error is at `p`.
pub open spec fn literal_at(number: bool, s: Seq<char>, p: int) -> Result<(Value, int), int> {
    if number {
        let q = run_end(s, p, CharClass::Digit);
        if p < q && digits_value(s.subrange(p, q)) <= u64::MAX {
            Ok((Value::Number(digits_value(s.subrange(p, q)) as u64), q))
        } else {
            Err(p)
        }
    } else {
        let q = run_end(s, p, CharClass::Word);
        if p < q {
            Ok((Value::Text(s.subrange(p, q)), q))
        } else {
            Err(p)
        }
    }
}

/// The comparison at `p`, and where it ends: an attribute name, an operator and a
/// value, with whitespace between them. A missing or unknown attribute is an
/// error at `p`; a missing operator, one where the whitespace after the name
/// ends; an ordering operator on an attribute that is not numeric, where the
/// operator ends; a missing value, where it should start.
pub open spec fn comparison_at(s: Seq<char>, p: int) -> Result<(Formula, int), int> {
    let q = run_end(s, p, CharClass::Name);
    if p < q {
        match attribute_named(s.subrange(p, q)) {
            None => Err(p),
            Some(a) => match operator_at(s, skip_space(s, q)) {
                None => Err(skip_space(s, q)),
                Some((op, r)) => if ordering(op) && !numeric(a) {
                    Err(r)
                } else {
                    match literal_at(numeric(a), s, skip_space(s, r)) {
                        Err(e) => Err(e),
                        Ok((v, e)) => Ok((Formula::Compare(a, op, v), e)),
                    }
                },
            },
        }
    } else {
        Err(p)
    }
}

/// The operand at `p`, and where it ends: after whitespace, a parenthesised
/// filter or a comparison. A missing `)` is an error where the whitespace after
/// the inner filter ends.
pub open spec fn operand_at(s: Seq<char>, p: int) -> Result<(Formula, int), int>
    decreases s.len() - p, 1int,
{
    let q = skip_space(s, p);
    if 0 <= p && at(s, q, '(') {
        proof {
            lemma_run_end(s, p, CharClass::Space);
        }
        match disjunction_at(s, q + 1) {
            Err(e) => Err(e),
            Ok((e, r)) => if at(s, skip_space(s, r), ')') {
                Ok((e, skip_space(s, r) + 1))
            } else {
                Err(skip_space(s, r))
            },
        }
    } else {
        comparison_at(s, q)
    }
}

/// The operands joined by `&&` that start at `p`, grouped to the left, and where
/// they end.
pub open spec fn conjunction_at(s: Seq<char>, p: int) -> Result<(Formula, int), int>
    decreases s.len() - p, 2int,
{
    match operand_at(s, p) {
        Err(e) => Err(e),
        Ok((f, r)) => if p < r <= s.len() {
            and_rest(s, f, r)
        } else {
            Err(r)
        },
    }
}

/// `acc` joined with `&&` to each further operand from `p` on, and where they end.
pub open spec fn and_rest(s: Seq<char>, acc: Formula, p: int) -> Result<(Formula, int), int>
    decreases s.len() - p, 3int,
{
    let q = skip_space(s, p);
    if 0 <= p && pair_at(s, q, '&', '&') {
        proof {
            lemma_run_end(s, p, CharClass::Space);
        }
        match operand_at(s, q + 2) {
            Err(e) => Err(e),
            Ok((f, r)) => if p < r <= s.len() {
                and_rest(s, Formula::And(Box::new(acc), Box::new(f)), r)
            } else {
                Err(r)
            },
        }
    } else {
        Ok((acc, p))
    }
}

/// The conjunctions joined by `||` that start at `p`, grouped to the left, and
/// where they end.
pub open spec fn disjunction_at(s: Seq<char>, p: int) -> Result<(Formula, int), int>
    decreases s.len() - p, 5int,
{
    match conjunction_at(s, p) {
        Err(e) => Err(e),
        Ok((c, r)) => if p < r <= s.len() {
            or_rest(s, c, r)
        } else {
            Err(r)
        },
    }
}

/// `acc` joined with `||` to each further conjunction from `p` on, and where
/// they end.
pub open spec fn or_rest(s: Seq<char>, acc: Formula, p: int) -> Result<(Formula, int), int>
    decreases s.len() - p, 4int,
{
    let q = skip_space(s, p);
    if 0 <= p && pair_at(s, q, '|', '|') {
        proof {
            lemma_run_end(s, p, CharClass::Space);
        }
        match conjunction_at(s, q + 2) {
            Err(e) => Err(e),
            Ok((c, r)) => if p < r <= s.len() {
                or_rest(s, Formula::Or(Box::new(acc), Box::new(c)), r)
            } else {
                Err(r)
            },
        }
    } else {
        Ok((acc, p))
    }
}

/// Every comparison of `f` gives a numeric attribute a whole number and any other
/// attribute a word, and orders only numeric attributes.
pub open spec fn well_typed(f: Formula) -> bool
    decreases f,
{
    match f {
        Formula::And(l, r) => well_typed(*l) && well_typed(*r),
        Formula::Or(l, r) => well_typed(*l) && well_typed(*r),
        Formula::Compare(a, op, v) => (ordering(op) ==> numeric(a)) && (numeric(a) <==> v is Number),
    }
}

/// The filter `s` spells, if it spells one: a disjunction followed by nothing
/// but whitespace. Otherwise, the index of the character at which reading it
/// stops: where a part is missing or malformed, or where unexpected text follows.
pub open spec fn filter_of(s: Seq<char>) -> Result<Formula, int> {
    match disjunction_at(s, 0) {
        Err(e) => Err(e),
        Ok((f, r)) => if skip_space(s, r) == s.len() {
            Ok(f)
        } else {
            Err(skip_space(s, r))
        },
    }
}


/// Why a text is not a filter: where reading it stopped, and what was expected
/// there.
#[derive(Debug)]
pub struct FilterParseError {
    /// The index of the character at which the text stopped making sense.
    pub offset: usize,
    /// What was expected there.
    pub message: String,
}

fn failure(offset: usize, message: &str) -> (e: FilterParseError)
    ensures
        e.offset == offset,
        e.message@ == message@,
{
    FilterParseError { offset, message: message.to_owned() }
}

fn class_has(class: CharClass, c: char) -> (b: bool)
    ensures
        b == in_class(class, c),
{
    match class {
        CharClass::Space => c == ' ' || c == '\t' || c == '\r' || c == '\n',
        CharClass::Name => ('a' <= c && c <= 'z') || c == '_',
        CharClass::Digit => '0' <= c && c <= '9',
        CharClass::Word => ('a' <= c && c <= 'z') || ('A' <= c && c <= 'Z') || ('0' <= c && c
            <= '9') || c == '.' || c == '-' || c == '_' || c == '/',
    }
}

/// Where the run of `class` characters that starts at `p` ends.
pub fn run_end_of(s: &[char], p: usize, class: CharClass) -> (q: usize)
    requires
        p <= s@.len(),
    ensures
        q == run_end(s@, p as int, class),
        p <= q <= s@.len(),
{
    let mut i = p;
    while i < s.len() && class_has(class, s[i])
        invariant
            p <= i <= s@.len(),
            run_end(s@, i as int, class) == run_end(s@, p as int, class),
        decreases s@.len() - i,
    {
        i = i + 1;
    }
    i
}

fn operator(s: &[char], p: usize) -> (r: Option<(Operator, usize)>)
    requires
        p <= s@.len(),
    ensures
        match r {
            Some((op, q)) => operator_at(s@, p as int) == Some((op, q as int)) && q <= s@.len(),
            None => operator_at(s@, p as int) is None,
        },
{
    let two = p < s.len() && s.len() - p > 1;
    if two && s[p] == '=' && s[p + 1] == '=' {
        Some((Operator::Equal, p + 2))
    } else if two && s[p] == '!' && s[p + 1] == '=' {
        Some((Operator::NotEqual, p + 2))
    } else if two && s[p] == '<' && s[p + 1] == '=' {
        Some((Operator::LessOrEqual, p + 2))
    } else if two && s[p] == '>' && s[p + 1] == '=' {
        Some((Operator::GreaterOrEqual, p + 2))
    } else if p < s.len() && s[p] == '<' {
        Some((Operator::Less, p + 1))
    } else if p < s.len() && s[p] == '>' {
        Some((Operator::Greater, p + 1))
    } else {
        None
    }
}

fn literal(number: bool, s: &[char], p: usize) -> (r: Result<(Literal, usize), FilterParseError>)
    requires
        p <= s@.len(),
    ensures
        match r {
            Ok((v, q)) => literal_at(number, s@, p as int) == Ok::<(Value, int), int>((v.value(), q as int)) && p < q
                <= s@.len(),
            Err(e) => literal_at(number, s@, p as int) == Err::<(Value, int), int>(e.offset as int),
        },
{
    if number {
        let q = run_end_of(s, p, CharClass::Digit);
        if q == p {
            return Err(failure(p, "expected a whole number"));
        }
        let digits = copy_range(s, p, q);
        proof {
            lemma_run_end(s@, p as int, CharClass::Digit);
            assert(digits@[0] == s@[p as int]);
            assert(unsigned_digits(digits@) == digits@);
            assert forall|k: int| 0 <= k < digits@.len() implies is_digit(#[trigger] digits@[k]) by {
                assert(digits@[k] == s@[p + k]);
                assert(in_class(CharClass::Digit, s@[p + k]));
            }
        }
        match parse_u64(digits.as_slice()) {
            Some(n) => Ok((Literal::Number(n), q)),
            None => Err(failure(p, "expected a whole number")),
        }
    } else {
        let q = run_end_of(s, p, CharClass::Word);
        if q == p {
            return Err(failure(p, "expected a value"));
        }
        let word = copy_range(s, p, q);
        Ok((Literal::Text(string_of(word.as_slice())), q))
    }
}

fn comparison(s: &[char], p: usize) -> (r: Result<(Expression, usize), FilterParseError>)
    requires
        p <= s@.len(),
    ensures
        match r {
            Ok((x, q)) => comparison_at(s@, p as int) == Ok::<(Formula, int), int>((x.formula(), q as int)) && p < q
                <= s@.len() && well_typed(x.formula()),
            Err(e) => comparison_at(s@, p as int) == Err::<(Formula, int), int>(e.offset as int),
        },
{
    let q = run_end_of(s, p, CharClass::Name);
    if q == p {
        return Err(failure(p, "expected a track attribute"));
    }
    let name = copy_range(s, p, q);
    let attribute = match named(name.as_slice()) {
        Some(a) => a,
        None => return Err(failure(p, "expected a track attribute")),
    };
    let r1 = run_end_of(s, q, CharClass::Space);
    let (operator, r2) = match operator(s, r1) {
        Some(found) => found,
        None => return Err(failure(r1, "expected a comparison operator")),
    };
    if operator.is_ordering() && !attribute.is_numeric() {
        return Err(failure(r2, "expected a numeric attribute before an ordering operator"));
    }
    let r3 = run_end_of(s, r2, CharClass::Space);
    match literal(attribute.is_numeric(), s, r3) {
        Err(e) => Err(e),
        Ok((value, e)) => Ok((Expression::Comparison(Comparison { attribute, operator, value }), e)),
    }
}

fn operand(s: &[char], p: usize) -> (r: Result<(Expression, usize), FilterParseError>)
    requires
        p <= s@.len(),
    ensures
        match r {
            Ok((x, q)) => operand_at(s@, p as int) == Ok::<(Formula, int), int>((x.formula(), q as int)) && p < q
                <= s@.len() && well_typed(x.formula()),
            Err(e) => operand_at(s@, p as int) == Err::<(Formula, int), int>(e.offset as int),
        },
    decreases s@.len() - p, 1int,
{
    let q = run_end_of(s, p, CharClass::Space);
    if q < s.len() && s[q] == '(' {
        match disjunction(s, q + 1) {
            Err(e) => Err(e),
            Ok((x, r)) => {
                let t = run_end_of(s, r, CharClass::Space);
                if t < s.len() && s[t] == ')' {
                    Ok((x, t + 1))
                } else {
                    Err(failure(t, "expected `)`"))
                }
            },
        }
    } else {
        comparison(s, q)
    }
}

fn conjunction(s: &[char], p: usize) -> (r: Result<(Expression, usize), FilterParseError>)
    requires
        p <= s@.len(),
    ensures
        match r {
            Ok((x, q)) => conjunction_at(s@, p as int) == Ok::<(Formula, int), int>((x.formula(), q as int)) && p < q
                <= s@.len() && well_typed(x.formula()),
            Err(e) => conjunction_at(s@, p as int) == Err::<(Formula, int), int>(e.offset as int),
        },
    decreases s@.len() - p, 2int,
{
    let (mut acc, mut pos) = match operand(s, p) {
        Ok(found) => found,
        Err(e) => return Err(e),
    };
    loop
        invariant
            p < pos <= s@.len(),
            conjunction_at(s@, p as int) == and_rest(s@, acc.formula(), pos as int),
            well_typed(acc.formula()),
        decreases s@.len() - pos,
    {
        let q = run_end_of(s, pos, CharClass::Space);
        if q < s.len() && s.len() - q > 1 && s[q] == '&' && s[q + 1] == '&' {
            match operand(s, q + 2) {
                Err(e) => return Err(e),
                Ok((f, r)) => {
                    acc = Expression::And(Box::new(acc), Box::new(f));
                    pos = r;
                },
            }
        } else {
            return Ok((acc, pos));
        }
    }
}

fn disjunction(s: &[char], p: usize) -> (r: Result<(Expression, usize), FilterParseError>)
    requires
        p <= s@.len(),
    ensures
        match r {
            Ok((x, q)) => disjunction_at(s@, p as int) == Ok::<(Formula, int), int>((x.formula(), q as int)) && p < q
                <= s@.len() && well_typed(x.formula()),
            Err(e) => disjunction_at(s@, p as int) == Err::<(Formula, int), int>(e.offset as int),
        },
    decreases s@.len() - p, 3int,
{
    let (mut acc, mut pos) = match conjunction(s, p) {
        Ok(found) => found,
        Err(e) => return Err(e),
    };
    loop
        invariant
            p < pos <= s@.len(),
            disjunction_at(s@, p as int) == or_rest(s@, acc.formula(), pos as int),
            well_typed(acc.formula()),
        decreases s@.len() - pos,
    {
        let q = run_end_of(s, pos, CharClass::Space);
        if q < s.len() && s.len() - q > 1 && s[q] == '|' && s[q + 1] == '|' {
            match conjunction(s, q + 2) {
                Err(e) => return Err(e),
                Ok((c, r)) => {
                    acc = Expression::Or(Box::new(acc), Box::new(c));
                    pos = r;
                },
            }
        } else {
            return Ok((acc, pos));
        }
    }
}

/// A parsed filter.
#[derive(Debug)]
pub struct Filter {
    expression: Expression,
}

impl View for Filter {
    type V = Formula;

    closed spec fn view(&self) -> Formula {
        self.expression.formula()
    }
}

impl Filter {
    /// Reads a filter from its text; it fails exactly on a text that is not one.
    pub fn parse(input: &str) -> (r: Result<Filter, FilterParseError>)
        ensures
            match r {
                Ok(f) => filter_of(input@) == Ok::<Formula, int>(f@) && well_typed(f@),
                Err(e) => filter_of(input@) == Err::<Formula, int>(e.offset as int),
            },
    {
        let s = chars_of(input);
        match disjunction(s.as_slice(), 0) {
            Err(e) => Err(e),
            Ok((x, r)) => {
                let t = run_end_of(s.as_slice(), r, CharClass::Space);
                if t == s.len() {
                    Ok(Filter { expression: x })
                } else {
                    Err(failure(t, "unexpected text after the filter"))
                }
            },
        }
    }
}


/// What a video track tells a filter.
#[derive(Debug, Clone)]
pub struct VideoFacts {
    pub width: u64,
    pub height: u64,
    pub frame_rate: String,
}

/// What an audio track tells a filter.
#[derive(Debug, Clone, Copy)]
pub struct AudioFacts {
    pub sample_rate: u64,
    pub channels: u64,
}

/// What a thumbnail track tells a filter.
#[derive(Debug, Clone, Copy)]
pub struct ThumbnailFacts {
    pub width: u64,
    pub height: u64,
    pub tile_size: u64,
}

/// The attributes of one track that a filter can compare.
#[derive(Debug, Clone)]
pub struct TrackFacts {
    /// The track's type: `video`, `audio`, `text` or `thumbnail`.
    pub kind: String,
    pub format: String,
    pub id: String,
    pub codec: Option<String>,
    pub language: Option<String>,
    pub role: Option<String>,
    pub video: Option<VideoFacts>,
    pub audio: Option<AudioFacts>,
    pub thumbnail: Option<ThumbnailFacts>,
}

/// The characters of an optional string.
pub open spec fn text_in(t: Option<String>) -> Option<Seq<char>> {
    match t {
        Some(s) => Some(s@),
        None => None,
    }
}

/// The text `track` has for `a`; numeric attributes have none.
pub open spec fn text_of(a: Attribute, track: TrackFacts) -> Option<Seq<char>> {
    match a {
        Attribute::Type => Some(track.kind@),
        Attribute::Format => Some(track.format@),
        Attribute::Id => Some(track.id@),
        Attribute::Codec => text_in(track.codec),
        Attribute::FrameRate => match track.video {
            Some(v) => Some(v.frame_rate@),
            None => None,
        },
        Attribute::Language => text_in(track.language),
        Attribute::Role => text_in(track.role),
        _ => None,
    }
}

/// The number `track` has for `a`: a width or height is the video's, else the
/// thumbnail's; the other textual attributes have none.
pub open spec fn number_of(a: Attribute, track: TrackFacts) -> Option<u64> {
    match a {
        Attribute::Width => match track.video {
            Some(v) => Some(v.width),
            None => match track.thumbnail {
                Some(t) => Some(t.width),
                None => None,
            },
        },
        Attribute::Height => match track.video {
            Some(v) => Some(v.height),
            None => match track.thumbnail {
                Some(t) => Some(t.height),
                None => None,
            },
        },
        Attribute::SampleRate => match track.audio {
            Some(au) => Some(au.sample_rate),
            None => None,
        },
        Attribute::Channels => match track.audio {
            Some(au) => Some(au.channels),
            None => None,
        },
        Attribute::TileSize => match track.thumbnail {
            Some(t) => Some(t.tile_size),
            None => None,
        },
        _ => None,
    }
}

/// How `a` compares to `b` in lexicographic order of their characters: negative,
/// zero or positive as `a` sorts before, with or after `b`.
pub open spec fn text_order(a: Seq<char>, b: Seq<char>) -> int
    decreases a.len(),
{
    if a.len() == 0 {
        if b.len() == 0 {
            0
        } else {
            -1
        }
    } else if b.len() == 0 {
        1
    } else if a[0] < b[0] {
        -1
    } else if b[0] < a[0] {
        1
    } else {
        text_order(a.drop_first(), b.drop_first())
    }
}

/// How `a` compares to `b`: negative, zero or positive.
pub open spec fn number_order(a: u64, b: u64) -> int {
    if a < b {
        -1
    } else if a == b {
        0
    } else {
        1
    }
}

/// Whether `track` passes the comparison of its `a` with `v` by `op`. A track
/// without the attribute fails it, whatever the operator.
pub open spec fn comparison_holds(a: Attribute, op: Operator, v: Value, track: TrackFacts) -> bool {
    match v {
        Value::Text(w) => match text_of(a, track) {
            Some(x) => holds(op, text_order(x, w)),
            None => false,
        },
        Value::Number(n) => match number_of(a, track) {
            Some(x) => holds(op, number_order(x, n)),
            None => false,
        },
    }
}

/// Whether `track` passes the filter `f`.
pub open spec fn satisfies(f: Formula, track: TrackFacts) -> bool
    decreases f,
{
    match f {
        Formula::And(l, r) => satisfies(*l, track) && satisfies(*r, track),
        Formula::Or(l, r) => satisfies(*l, track) || satisfies(*r, track),
        Formula::Compare(a, op, v) => comparison_holds(a, op, v, track),
    }
}

fn texts_order(a: &[char], b: &[char]) -> (o: i8)
    ensures
        o as int == text_order(a@, b@),
{
    let mut i: usize = 0;
    proof {
        assert(a@.skip(0) =~= a@);
        assert(b@.skip(0) =~= b@);
    }
    while i < a.len() && i < b.len()
        invariant
            i <= a@.len(),
            i <= b@.len(),
            text_order(a@, b@) == text_order(a@.skip(i as int), b@.skip(i as int)),
        decreases a@.len() - i,
    {
        if a[i] < b[i] {
            return -1;
        } else if b[i] < a[i] {
            return 1;
        }
        proof {
            assert(a@.skip(i as int).drop_first() =~= a@.skip(i + 1));
            assert(b@.skip(i as int).drop_first() =~= b@.skip(i + 1));
        }
        i = i + 1;
    }
    if i == a.len() {
        if i == b.len() {
            0
        } else {
            -1
        }
    } else {
        1
    }
}

impl Attribute {
    /// The text `track` has for this attribute; numeric attributes have none.
    pub fn text(self, track: &TrackFacts) -> (t: Option<&String>)
        ensures
            match t {
                Some(x) => text_of(self, *track) == Some(x@),
                None => text_of(self, *track) is None,
            },
    {
        match self {
            Attribute::Type => Some(&track.kind),
            Attribute::Format => Some(&track.format),
            Attribute::Id => Some(&track.id),
            Attribute::Codec => match &track.codec {
                Some(c) => Some(c),
                None => None,
            },
            Attribute::FrameRate => match &track.video {
                Some(v) => Some(&v.frame_rate),
                None => None,
            },
            Attribute::Language => match &track.language {
                Some(l) => Some(l),
                None => None,
            },
            Attribute::Role => match &track.role {
                Some(r) => Some(r),
                None => None,
            },
            _ => None,
        }
    }

    /// The number `track` has for this attribute: a width or height is the
    /// video's, else the thumbnail's.
    pub fn number(self, track: &TrackFacts) -> (n: Option<u64>)
        ensures
            n == number_of(self, *track),
    {
        match self {
            Attribute::Width => match &track.video {
                Some(v) => Some(v.width),
                None => match &track.thumbnail {
                    Some(t) => Some(t.width),
                    None => None,
                },
            },
            Attribute::Height => match &track.video {
                Some(v) => Some(v.height),
                None => match &track.thumbnail {
                    Some(t) => Some(t.height),
                    None => None,
                },
            },
            Attribute::SampleRate => match &track.audio {
                Some(au) => Some(au.sample_rate),
                None => None,
            },
            Attribute::Channels => match &track.audio {
                Some(au) => Some(au.channels),
                None => None,
            },
            Attribute::TileSize => match &track.thumbnail {
                Some(t) => Some(t.tile_size),
                None => None,
            },
            _ => None,
        }
    }
}

impl Comparison {
    /// Whether `track` passes this comparison.
    pub fn matches(&self, track: &TrackFacts) -> (m: bool)
        ensures
            m == comparison_holds(self.attribute, self.operator, self.value.value(), *track),
    {
        match &self.value {
            Literal::Text(wanted) => match self.attribute.text(track) {
                Some(actual) => {
                    let x = chars_of(actual.as_str());
                    let w = chars_of(wanted.as_str());
                    let order = texts_order(x.as_slice(), w.as_slice());
                    self.operator.holds_for(order)
                },
                None => false,
            },
            Literal::Number(wanted) => match self.attribute.number(track) {
                Some(actual) => {
                    let order: i8 = if actual < *wanted {
                        -1
                    } else if actual == *wanted {
                        0
                    } else {
                        1
                    };
                    self.operator.holds_for(order)
                },
                None => false,
            },
        }
    }
}

impl Expression {
    /// Whether `track` passes this expression.
    pub fn matches(&self, track: &TrackFacts) -> (m: bool)
        ensures
            m == satisfies(self.formula(), *track),
        decreases self,
    {
        match self {
            Expression::And(l, r) => l.matches(track) && r.matches(track),
            Expression::Or(l, r) => l.matches(track) || r.matches(track),
            Expression::Comparison(c) => c.matches(track),
        }
    }
}

/// A filter kept none of an asset's tracks.
#[derive(Debug)]
pub struct FilterMatchedNothing;

impl FilterMatchedNothing {
    /// What went wrong, in words.
    pub fn message(&self) -> (m: String)
        ensures
            m@ == "no asset track matches the filter"@,
    {
        "no asset track matches the filter".to_owned()
    }
}

impl Filter {
    /// Whether `track` passes the filter.
    pub fn matches(&self, track: &TrackFacts) -> (m: bool)
        ensures
            m == satisfies(self@, *track),
    {
        self.expression.matches(track)
    }

    /// Keeps the tracks that pass the filter, in their order, and fails when none
    /// is left.
    pub fn apply(&self, tracks: &mut Vec<TrackFacts>) -> (r: Result<(), FilterMatchedNothing>)
        ensures
            final(tracks)@ == old(tracks)@.filter(|t: TrackFacts| satisfies(self@, t)),
            r is Err <==> final(tracks)@.len() == 0,
    {
        let ghost pred = |t: TrackFacts| satisfies(self@, t);
        let mut all: Vec<TrackFacts> = Vec::new();
        std::mem::swap(&mut all, tracks);
        let ghost before = all@;
        let mut kept: Vec<TrackFacts> = Vec::new();
        while all.len() > 0
            invariant
                pred == (|x: TrackFacts| satisfies(self@, x)),
                all@.len() <= before.len(),
                all@ == before.skip(before.len() - all@.len()),
                kept@ == before.take(before.len() - all@.len()).filter(pred),
            decreases all@.len(),
        {
            let ghost done = before.len() - all@.len();
            let t = all.remove(0);
            proof {
                reveal(Seq::filter);
                assert(t == before[done]);
                assert(before.take(done + 1).drop_last() =~= before.take(done));
                assert(all@ =~= before.skip(done + 1));
            }
            let keep = self.matches(&t);
            proof {
                assert(before.take(done + 1).last() == t);
                assert(pred(t) == keep);
            }
            if keep {
                kept.push(t);
            }
        }
        proof {
            assert(before.take(before.len() as int) =~= before);
        }
        *tracks = kept;
        if tracks.len() == 0 {
            Err(FilterMatchedNothing)
        } else {
            Ok(())
        }
    }
}

/// A run of `class` characters from `p` ends at `q` when every character before
/// `q` is of `class` and the one at `q`, if any, is not.
proof fn lemma_run_reaches(s: Seq<char>, p: int, q: int, class: CharClass)
    requires
        0 <= p <= q <= s.len(),
        forall|k: int| p <= k < q ==> in_class(class, #[trigger] s[k]),
        q == s.len() || !in_class(class, s[q]),
    ensures
        run_end(s, p, class) == q,
    decreases q - p,
{
    if p < q {
        lemma_run_reaches(s, p + 1, q, class);
    }
}

/// A text value is exactly a non-empty run of ASCII letters and digits, `.`,
/// `-`, `_` and `/`: those characters, and no others, continue a word. So for a
/// textual attribute named `name`, `name==w` is the filter that compares the
/// attribute with `w` for equality, for every non-empty `w` made of them, dotted
/// codec strings such as `avc1.64001f` among them.
pub proof fn text_values_are_words(name: Seq<char>, a: Attribute, w: Seq<char>, c: char)
    requires
        attribute_named(name) == Some(a),
        !numeric(a),
        forall|k: int| 0 <= k < name.len() ==> in_class(CharClass::Name, #[trigger] name[k]),
        w.len() > 0,
        forall|k: int|
            0 <= k < w.len() ==> {
                let x = #[trigger] w[k];
                ('a' <= x && x <= 'z') || ('A' <= x && x <= 'Z') || ('0' <= x && x <= '9') || x
                    == '.' || x == '-' || x == '_' || x == '/'
            },
    ensures
        in_class(CharClass::Word, c) <==> (('a' <= c && c <= 'z') || ('A' <= c && c <= 'Z') || (
        '0' <= c && c <= '9') || c == '.' || c == '-' || c == '_' || c == '/'),
        filter_of(name + "=="@ + w) == Ok::<Formula, int>(
            Formula::Compare(a, Operator::Equal, Value::Text(w)),
        ),
{
    reveal_strlit("==");
    let s = name + "=="@ + w;
    let n = name.len() as int;
    let len = s.len() as int;
    assert(n > 0) by {
        if n == 0 {
            assert(name =~= Seq::<char>::empty());
            reveal_strlit("type");
            reveal_strlit("format");
            reveal_strlit("id");
            reveal_strlit("codec");
            reveal_strlit("frame_rate");
            reveal_strlit("language");
            reveal_strlit("role");
            reveal_strlit("width");
            reveal_strlit("height");
            reveal_strlit("sample_rate");
            reveal_strlit("channels");
            reveal_strlit("tile_size");
        }
    }
    assert(len == n + 2 + w.len());
    assert(forall|k: int| 0 <= k < n ==> s[k] == name[k]);
    assert(s[n] == '=' && s[n + 1] == '=');
    assert(forall|k: int| n + 2 <= k < len ==> s[k] == w[k - n - 2]);
    // The attribute name.
    assert(!in_class(CharClass::Space, s[0]));
    assert(s[0] != '(');
    lemma_run_reaches(s, 0, 0, CharClass::Space);
    lemma_run_reaches(s, 0, n, CharClass::Name);
    assert(s.subrange(0, n) =~= name);
    // The operator.
    lemma_run_reaches(s, n, n, CharClass::Space);
    assert(operator_at(s, n) == Some((Operator::Equal, n + 2)));
    // The value.
    assert(!in_class(CharClass::Space, s[n + 2])) by {
        assert(s[n + 2] == w[0]);
    }
    lemma_run_reaches(s, n + 2, n + 2, CharClass::Space);
    assert forall|k: int| n + 2 <= k < len implies in_class(CharClass::Word, #[trigger] s[k]) by {
        assert(s[k] == w[k - n - 2]);
    }
    lemma_run_reaches(s, n + 2, len, CharClass::Word);
    assert(s.subrange(n + 2, len) =~= w);
    let f = Formula::Compare(a, Operator::Equal, Value::Text(w));
    assert(literal_at(false, s, n + 2) == Ok::<(Value, int), int>((Value::Text(w), len)));
    assert(comparison_at(s, 0) == Ok::<(Formula, int), int>((f, len)));
    assert(operand_at(s, 0) == Ok::<(Formula, int), int>((f, len)));
    // Nothing follows it.
    lemma_run_reaches(s, len, len, CharClass::Space);
    assert(and_rest(s, f, len) == Ok::<(Formula, int), int>((f, len)));
    assert(conjunction_at(s, 0) == Ok::<(Formula, int), int>((f, len)));
    assert(or_rest(s, f, len) == Ok::<(Formula, int), int>((f, len)));
    assert(disjunction_at(s, 0) == Ok::<(Formula, int), int>((f, len)));
}

/// A filter reads a track's width and height from its video when it has one,
/// else from its thumbnail, and a track with neither has no width or height: so
/// `height==n` keeps a video track exactly when its video is `n` high,
/// `height<=n` exactly when it is at most `n` high, and likewise for the width.
pub proof fn dimensions_come_from_the_picture(t: TrackFacts, op: Operator, n: u64)
    ensures
        t.video matches Some(v) ==> {
            &&& number_of(Attribute::Width, t) == Some(v.width)
            &&& number_of(Attribute::Height, t) == Some(v.height)
            &&& satisfies(Formula::Compare(Attribute::Height, Operator::Equal, Value::Number(n)), t)
                <==> v.height == n
            &&& satisfies(
                Formula::Compare(Attribute::Height, Operator::LessOrEqual, Value::Number(n)),
                t,
            ) <==> v.height <= n
            &&& satisfies(Formula::Compare(Attribute::Width, Operator::Equal, Value::Number(n)), t)
                <==> v.width == n
            &&& satisfies(
                Formula::Compare(Attribute::Width, Operator::GreaterOrEqual, Value::Number(n)),
                t,
            ) <==> v.width >= n
        },
        t.video is None ==> (t.thumbnail matches Some(th) ==> {
            &&& number_of(Attribute::Width, t) == Some(th.width)
            &&& number_of(Attribute::Height, t) == Some(th.height)
        }),
        t.video is None && t.thumbnail is None ==> {
            &&& number_of(Attribute::Width, t) is None
            &&& number_of(Attribute::Height, t) is None
            &&& !satisfies(Formula::Compare(Attribute::Height, op, Value::Number(n)), t)
            &&& !satisfies(Formula::Compare(Attribute::Width, op, Value::Number(n)), t)
        },
{
}

/// Each attribute answers to its own name and to no other.
pub proof fn attributes_answer_to_their_names(name: Seq<char>)
    ensures
        attribute_named(name) == Some(Attribute::Type) <==> name == "type"@,
        attribute_named(name) == Some(Attribute::Format) <==> name == "format"@,
        attribute_named(name) == Some(Attribute::Id) <==> name == "id"@,
        attribute_named(name) == Some(Attribute::Codec) <==> name == "codec"@,
        attribute_named(name) == Some(Attribute::FrameRate) <==> name == "frame_rate"@,
        attribute_named(name) == Some(Attribute::Language) <==> name == "language"@,
        attribute_named(name) == Some(Attribute::Role) <==> name == "role"@,
        attribute_named(name) == Some(Attribute::Width) <==> name == "width"@,
        attribute_named(name) == Some(Attribute::Height) <==> name == "height"@,
        attribute_named(name) == Some(Attribute::SampleRate) <==> name == "sample_rate"@,
        attribute_named(name) == Some(Attribute::Channels) <==> name == "channels"@,
        attribute_named(name) == Some(Attribute::TileSize) <==> name == "tile_size"@,
{
    reveal_strlit("type");
    reveal_strlit("format");
    reveal_strlit("id");
    reveal_strlit("codec");
    reveal_strlit("frame_rate");
    reveal_strlit("language");
    reveal_strlit("role");
    reveal_strlit("width");
    reveal_strlit("height");
    reveal_strlit("sample_rate");
    reveal_strlit("channels");
    reveal_strlit("tile_size");
    assert("type"@.len() == 4 && "role"@.len() == 4 && "id"@.len() == 2);
    assert("format"@.len() == 6 && "height"@.len() == 6 && "frame_rate"@.len() == 10);
    assert("codec"@.len() == 5 && "width"@.len() == 5 && "sample_rate"@.len() == 11);
    assert("language"@.len() == 8 && "channels"@.len() == 8 && "tile_size"@.len() == 9);
    assert("type"@[0] != "role"@[0]);
    assert("format"@[0] != "height"@[0]);
    assert("codec"@[0] != "width"@[0]);
    assert("language"@[0] != "channels"@[0]);
}

/// Each attribute reads its own fact of a track: the type, format and id
/// always; the codec, language and role where the track has them; the frame
/// rate of its video; the sample rate and channel count of its audio; the tile
/// size of its thumbnail. The textual attributes have no number, and the
/// numeric ones no text.
pub proof fn attributes_read_their_own_facts(t: TrackFacts, a: Attribute)
    ensures
        text_of(Attribute::Type, t) == Some(t.kind@),
        text_of(Attribute::Format, t) == Some(t.format@),
        text_of(Attribute::Id, t) == Some(t.id@),
        t.codec matches Some(c) ==> text_of(Attribute::Codec, t) == Some(c@),
        t.codec is None ==> text_of(Attribute::Codec, t) is None,
        t.language matches Some(l) ==> text_of(Attribute::Language, t) == Some(l@),
        t.language is None ==> text_of(Attribute::Language, t) is None,
        t.role matches Some(r) ==> text_of(Attribute::Role, t) == Some(r@),
        t.role is None ==> text_of(Attribute::Role, t) is None,
        t.video matches Some(v) ==> text_of(Attribute::FrameRate, t) == Some(v.frame_rate@),
        t.video is None ==> text_of(Attribute::FrameRate, t) is None,
        t.audio matches Some(au) ==> number_of(Attribute::SampleRate, t) == Some(au.sample_rate)
            && number_of(Attribute::Channels, t) == Some(au.channels),
        t.audio is None ==> number_of(Attribute::SampleRate, t) is None && number_of(
            Attribute::Channels,
            t,
        ) is None,
        t.thumbnail matches Some(th) ==> number_of(Attribute::TileSize, t) == Some(th.tile_size),
        t.thumbnail is None ==> number_of(Attribute::TileSize, t) is None,
        numeric(a) <==> (a is Width || a is Height || a is SampleRate || a is Channels
            || a is TileSize),
        numeric(a) ==> text_of(a, t) is None,
        !numeric(a) ==> number_of(a, t) is None,
{
}

/// Two texts compare as equal exactly when they are the same text.
proof fn lemma_text_order_equal(a: Seq<char>, b: Seq<char>)
    ensures
        text_order(a, b) == 0 <==> a == b,
    decreases a.len(),
{
    if a.len() > 0 && b.len() > 0 && a[0] == b[0] {
        lemma_text_order_equal(a.drop_first(), b.drop_first());
        if a.drop_first() == b.drop_first() {
            assert forall|k: int| 0 <= k < a.len() implies a[k] == b[k] by {
                if k > 0 {
                    assert(a[k] == a.drop_first()[k - 1]);
                    assert(b[k] == b.drop_first()[k - 1]);
                }
            }
            assert(a =~= b);
        }
    }
    if a.len() == 0 && b.len() == 0 {
        assert(a =~= b);
    }
    if a.len() > 0 && b.len() > 0 && a == b {
        assert(a.drop_first() =~= b.drop_first());
    }
}

/// A comparison holds of a track as its operator relates the track's value to
/// the filter's: for a number `x` the track has, `==`, `!=`, `<`, `<=`, `>`
/// and `>=` hold when `x` is equal to, other than, less than, at most, more
/// than and at least `n`; for a text `x`, `==` holds when `x` is `w` and `!=`
/// when it is not. A track without the attribute passes no comparison of it.
/// A track passes `l && r` when it passes both, and `l || r` when it passes
/// either.
pub proof fn comparisons_hold_as_their_operators_say(
    t: TrackFacts,
    a: Attribute,
    op: Operator,
    n: u64,
    w: Seq<char>,
    l: Formula,
    r: Formula,
)
    ensures
        number_of(a, t) matches Some(x) ==> (satisfies(
            Formula::Compare(a, op, Value::Number(n)),
            t,
        ) <==> match op {
            Operator::Equal => x == n,
            Operator::NotEqual => x != n,
            Operator::Less => x < n,
            Operator::LessOrEqual => x <= n,
            Operator::Greater => x > n,
            Operator::GreaterOrEqual => x >= n,
        }),
        number_of(a, t) is None ==> !satisfies(Formula::Compare(a, op, Value::Number(n)), t),
        text_of(a, t) matches Some(x) ==> (satisfies(
            Formula::Compare(a, Operator::Equal, Value::Text(w)),
            t,
        ) <==> x == w),
        text_of(a, t) matches Some(x) ==> (satisfies(
            Formula::Compare(a, Operator::NotEqual, Value::Text(w)),
            t,
        ) <==> x != w),
        text_of(a, t) is None ==> !satisfies(Formula::Compare(a, op, Value::Text(w)), t),
        satisfies(Formula::And(Box::new(l), Box::new(r)), t) <==> (satisfies(l, t) && satisfies(
            r,
            t,
        )),
        satisfies(Formula::Or(Box::new(l), Box::new(r)), t) <==> (satisfies(l, t) || satisfies(
            r,
            t,
        )),
{
    if let Some(x) = text_of(a, t) {
        lemma_text_order_equal(x, w);
    }
}

/// For a numeric attribute named `name`, `name` followed by an operator's token
/// (`==`, `!=`, `<`, `<=`, `>`, `>=`) and a non-empty run of decimal digits
/// whose value fits in a `u64` is the filter that compares the attribute with
/// that value by that operator.
pub proof fn numbers_compare_by_their_operator(name: Seq<char>, a: Attribute, op: Operator, d: Seq<char>)
    requires
        attribute_named(name) == Some(a),
        numeric(a),
        forall|k: int| 0 <= k < name.len() ==> in_class(CharClass::Name, #[trigger] name[k]),
        d.len() > 0,
        forall|k: int| 0 <= k < d.len() ==> '0' <= #[trigger] d[k] && d[k] <= '9',
        digits_value(d) <= u64::MAX,
    ensures
        ({
            let token = match op {
                Operator::Equal => "=="@,
                Operator::NotEqual => "!="@,
                Operator::Less => "<"@,
                Operator::LessOrEqual => "<="@,
                Operator::Greater => ">"@,
                Operator::GreaterOrEqual => ">="@,
            };
            filter_of(name + token + d) == Ok::<Formula, int>(
                Formula::Compare(a, op, Value::Number(digits_value(d) as u64)),
            )
        }),
{
    reveal_strlit("==");
    reveal_strlit("!=");
    reveal_strlit("<");
    reveal_strlit("<=");
    reveal_strlit(">");
    reveal_strlit(">=");
    let token = match op {
        Operator::Equal => "=="@,
        Operator::NotEqual => "!="@,
        Operator::Less => "<"@,
        Operator::LessOrEqual => "<="@,
        Operator::Greater => ">"@,
        Operator::GreaterOrEqual => ">="@,
    };
    let s = name + token + d;
    let n = name.len() as int;
    let m = token.len() as int;
    let len = s.len() as int;
    assert(n > 0) by {
        if n == 0 {
            assert(name =~= Seq::<char>::empty());
            reveal_strlit("width");
            reveal_strlit("height");
            reveal_strlit("sample_rate");
            reveal_strlit("channels");
            reveal_strlit("tile_size");
        }
    }
    assert(len == n + m + d.len());
    assert(forall|k: int| 0 <= k < n ==> s[k] == name[k]);
    assert(forall|k: int| 0 <= k < m ==> s[n + k] == token[k]);
    assert(forall|k: int| n + m <= k < len ==> s[k] == d[k - n - m]);
    // The attribute name.
    assert(!in_class(CharClass::Space, s[0]));
    assert(s[0] != '(');
    lemma_run_reaches(s, 0, 0, CharClass::Space);
    assert(!in_class(CharClass::Name, s[n])) by {
        assert(s[n] == token[0]);
    }
    lemma_run_reaches(s, 0, n, CharClass::Name);
    assert(s.subrange(0, n) =~= name);
    // The operator.
    assert(!in_class(CharClass::Space, s[n])) by {
        assert(s[n] == token[0]);
    }
    lemma_run_reaches(s, n, n, CharClass::Space);
    assert(s[n + m] == d[0]);
    assert(operator_at(s, n) == Some((op, n + m)));
    // The value.
    lemma_run_reaches(s, n + m, n + m, CharClass::Space);
    assert forall|k: int| n + m <= k < len implies in_class(CharClass::Digit, #[trigger] s[k]) by {
        assert(s[k] == d[k - n - m]);
    }
    lemma_run_reaches(s, n + m, len, CharClass::Digit);
    assert(s.subrange(n + m, len) =~= d);
    let f = Formula::Compare(a, op, Value::Number(digits_value(d) as u64));
    assert(literal_at(true, s, n + m) == Ok::<(Value, int), int>(
        (Value::Number(digits_value(d) as u64), len),
    ));
    assert(comparison_at(s, 0) == Ok::<(Formula, int), int>((f, len)));
    assert(operand_at(s, 0) == Ok::<(Formula, int), int>((f, len)));
    // Nothing follows it.
    lemma_run_reaches(s, len, len, CharClass::Space);
    assert(and_rest(s, f, len) == Ok::<(Formula, int), int>((f, len)));
    assert(conjunction_at(s, 0) == Ok::<(Formula, int), int>((f, len)));
    assert(or_rest(s, f, len) == Ok::<(Formula, int), int>((f, len)));
    assert(disjunction_at(s, 0) == Ok::<(Formula, int), int>((f, len)));
}

} // verus!
