//! The options a request path carries, as a Rison object such as
//! `(asset:demo,min_length:1000)`: which asset to serve and how to segment and
//! describe it.

use vstd::prelude::*;

use crate::charseq::{chars_of, concat, spells, string_of};
use crate::error::ServerError;

verus! {

/// A value of a Rison object, as far as the options read one.
#[derive(Debug, Clone, PartialEq, Eq)]
pub enum RisonValue {
    /// A string, quoted or bare.
    Text(String),
    /// A number: its value where it is a whole number a 64-bit integer holds.
    Number(Option<i64>),
    /// `!t` or `!f`.
    Flag(bool),
    /// Anything else: `!n`, a list, an object.
    Other,
}

/// What a Rison value is.
pub enum RisonValueView {
    Text(Seq<char>),
    Number(Option<i64>),
    Flag(bool),
    Other,
}

impl View for RisonValue {
    type V = RisonValueView;

    open spec fn view(&self) -> RisonValueView {
        match self {
            RisonValue::Text(text) => RisonValueView::Text(text@),
            RisonValue::Number(number) => RisonValueView::Number(*number),
            RisonValue::Flag(flag) => RisonValueView::Flag(*flag),
            RisonValue::Other => RisonValueView::Other,
        }
    }
}

/// The views of the fields of a Rison object.
pub open spec fn fields_view(fields: Seq<(String, RisonValue)>) -> Seq<(Seq<char>, RisonValueView)> {
    fields.map_values(|f: (String, RisonValue)| (f.0@, f.1@))
}

/// The fields of the Rison object `text` is, each key once, or `None` where
/// `text` is not one.
pub uninterp spec fn rison_object(text: Seq<char>) -> Option<Seq<(Seq<char>, RisonValueView)>>;

/// How many times `target` stands in `s[i..]` outside a quoted string, reading
/// from outside one where `quoted` is false. Inside a quoted string `!` escapes
/// the character after it and `'` ends the string; outside one, `'` starts one.
pub open spec fn count_outside(s: Seq<char>, i: int, quoted: bool, target: char) -> nat
    decreases s.len() - i,
{
    if i < 0 || i >= s.len() {
        0
    } else if quoted {
        if s[i] == '!' {
            if i + 1 < s.len() {
                count_outside(s, i + 2, true, target)
            } else {
                0
            }
        } else if s[i] == '\'' {
            count_outside(s, i + 1, false, target)
        } else {
            count_outside(s, i + 1, true, target)
        }
    } else if s[i] == '\'' {
        count_outside(s, i + 1, true, target)
    } else if s[i] == target {
        1 + count_outside(s, i + 1, false, target)
    } else {
        count_outside(s, i + 1, false, target)
    }
}

/// How many `(` stand outside the quoted strings of `s`: one for an object whose
/// values are all plain, more where a value nests an object or a list.
pub open spec fn opens(s: Seq<char>) -> nat {
    count_outside(s, 0, false, '(')
}

/// How many entries a flat object `s` holds: one more than the commas outside
/// its quoted strings, or none for `()`.
pub open spec fn entries(s: Seq<char>) -> nat {
    if s =~= seq!['(', ')'] {
        0
    } else {
        count_outside(s, 0, false, ',') + 1
    }
}

/// How many times `target` stands in `s` outside a quoted string.
fn count_outside_of(s: &[char], target: char) -> (n: usize)
    ensures
        n == count_outside(s@, 0, false, target),
{
    let mut i: usize = 0;
    let mut quoted = false;
    let mut n: usize = 0;
    while i < s.len()
        invariant
            i <= s@.len(),
            n <= i,
            count_outside(s@, 0, false, target) == n + count_outside(s@, i as int, quoted, target),
        decreases s@.len() - i,
    {
        let c = s[i];
        if quoted {
            if c == '!' {
                if i + 1 < s.len() {
                    i = i + 2;
                } else {
                    i = s.len();
                }
            } else {
                if c == '\'' {
                    quoted = false;
                }
                i = i + 1;
            }
        } else {
            if c == '\'' {
                quoted = true;
            } else if c == target {
                n = n + 1;
            }
            i = i + 1;
        }
    }
    n
}

/// Parses `text` with `rison::from_str` into a JSON object and lists its fields,
/// each value by its kind. Claimed: the call succeeds exactly when
/// [`rison_object`] of `text` is some list of fields, and then yields that list.
/// What the error message says is not claimed. The text may open at most one
/// object or list: rison reads each nested value by recursion, so a deeply
/// nested text would exhaust the stack.
#[verifier::external_body]
fn rison_fields(text: &str) -> (r: Result<Vec<(String, RisonValue)>, String>)
    requires
        opens(text@) <= 1,
    ensures
        r matches Ok(fields) ==> rison_object(text@) == Some(fields_view(fields@)),
        r is Err ==> rison_object(text@) is None,
{
    match rison::from_str::<serde_json::Map<String, serde_json::Value>>(text) {
        Ok(map) => Ok(map.into_iter().map(|(key, value)| (key, match value {
            serde_json::Value::String(text) => RisonValue::Text(text),
            serde_json::Value::Number(number) => RisonValue::Number(number.as_i64()),
            serde_json::Value::Bool(flag) => RisonValue::Flag(flag),
            _ => RisonValue::Other,
        })).collect()),
        Err(error) => Err(error.to_string()),
    }
}

/// The options a field can set.
#[derive(Debug, Clone, Copy, PartialEq, Eq, Structural)]
pub enum OptionField {
    Asset,
    MinLength,
    TextLength,
    Compact,
    MultiPeriod,
    Wvtt,
}

/// The option a key names, by its name or one of its aliases.
pub open spec fn field_named(key: Seq<char>) -> Option<OptionField> {
    if key == "asset"@ || key == "a"@ {
        Some(OptionField::Asset)
    } else if key == "min_length"@ || key == "sml"@ || key == "segment_min_length"@ {
        Some(OptionField::MinLength)
    } else if key == "text_length"@ || key == "stl"@ || key == "segment_text_length"@ {
        Some(OptionField::TextLength)
    } else if key == "compact"@ || key == "c"@ {
        Some(OptionField::Compact)
    } else if key == "multi_period"@ || key == "mp"@ {
        Some(OptionField::MultiPeriod)
    } else if key == "wvtt"@ {
        Some(OptionField::Wvtt)
    } else {
        None
    }
}

/// `value` has the type `field` takes: a string for the asset, a whole number a
/// `u32` holds for a length, a flag for the rest.
pub open spec fn fits(field: OptionField, value: RisonValueView) -> bool {
    match field {
        OptionField::Asset => value is Text,
        OptionField::MinLength | OptionField::TextLength => value matches RisonValueView::Number(
            Some(n),
        ) && 0 <= n <= u32::MAX,
        _ => value is Flag,
    }
}

/// Every field names an option and has its type, no option is set twice, and
/// the asset is set.
pub open spec fn well_formed(fields: Seq<(Seq<char>, RisonValueView)>) -> bool {
    &&& forall|i: int|
        0 <= i < fields.len() ==> (field_named((#[trigger] fields[i]).0) matches Some(f) && fits(
            f,
            fields[i].1,
        ))
    &&& forall|i: int, j: int|
        0 <= i < j < fields.len() ==> field_named((#[trigger] fields[i]).0) != field_named(
            (#[trigger] fields[j]).0,
        )
    &&& exists|i: int| 0 <= i < fields.len() && field_named((#[trigger] fields[i]).0) == Some(OptionField::Asset)
}

/// The value the last field setting `field` gives it.
pub open spec fn value_of(fields: Seq<(Seq<char>, RisonValueView)>, field: OptionField) -> Option<
    RisonValueView,
>
    decreases fields.len(),
{
    if fields.len() == 0 {
        None
    } else if field_named(fields.last().0) == Some(field) {
        Some(fields.last().1)
    } else {
        value_of(fields.drop_last(), field)
    }
}

/// A length the fields set, or 0.
pub open spec fn length_or_zero(value: Option<RisonValueView>) -> u32 {
    match value {
        Some(RisonValueView::Number(Some(n))) => n as u32,
        _ => 0,
    }
}

/// A flag the fields set, or `false`.
pub open spec fn flag_or_false(value: Option<RisonValueView>) -> bool {
    match value {
        Some(RisonValueView::Flag(b)) => b,
        _ => false,
    }
}

/// The asset the fields name.
pub open spec fn text_or_empty(value: Option<RisonValueView>) -> Seq<char> {
    match value {
        Some(RisonValueView::Text(t)) => t,
        _ => Seq::empty(),
    }
}

/// What a set of options is.
pub struct OptionsView {
    pub asset: Seq<char>,
    pub min_length: u32,
    pub text_length: u32,
    pub compact: bool,
    pub multi_period: bool,
    pub wvtt: bool,
}

/// The options `fields` set, the ones they leave out at their defaults (0 and
/// `false`), or `None` where the fields are not well formed.
pub open spec fn options_of(fields: Seq<(Seq<char>, RisonValueView)>) -> Option<OptionsView> {
    if well_formed(fields) {
        Some(
            OptionsView {
                asset: text_or_empty(value_of(fields, OptionField::Asset)),
                min_length: length_or_zero(value_of(fields, OptionField::MinLength)),
                text_length: length_or_zero(value_of(fields, OptionField::TextLength)),
                compact: flag_or_false(value_of(fields, OptionField::Compact)),
                multi_period: flag_or_false(value_of(fields, OptionField::MultiPeriod)),
                wvtt: flag_or_false(value_of(fields, OptionField::Wvtt)),
            },
        )
    } else {
        None
    }
}

/// `fragment` as a Rison object: as it is where it opens with `(`, else wrapped
/// in parentheses.
pub open spec fn as_object(fragment: Seq<char>) -> Seq<char> {
    if fragment.len() > 0 && fragment[0] == '(' {
        fragment
    } else {
        seq!['('] + fragment + seq![')']
    }
}

/// How an asset is cut into segments.
#[derive(Debug, Clone, PartialEq, Eq, Default)]
pub struct SegmentOptions {
    /// The shortest a segment may be, in milliseconds; 0 for no minimum.
    pub min_length: u32,
    /// The length text segments are cut to, in milliseconds; 0 for none.
    pub text_length: u32,
    /// Times, in milliseconds, at which a segment must start.
    pub boundaries: Vec<u32>,
}

/// What the server knows of an asset before serving it.
#[derive(Debug, Clone, PartialEq, Eq, Default)]
pub struct AssetDescriptor {
    pub segment_options: SegmentOptions,
}

/// How a DASH manifest is written.
#[derive(Debug, Clone, Copy, Default, PartialEq, Eq)]
pub struct DashOptions {
    pub compact: bool,
    /// Split the manifest into a Period at each segment boundary.
    pub multi_period: bool,
}

/// How an HLS playlist is written.
#[derive(Debug, Clone, Copy, Default, PartialEq, Eq)]
pub struct HlsOptions {
    /// Serve text tracks as `wvtt` segments rather than WebVTT documents.
    pub wvtt: bool,
}

/// The options of a request.
#[derive(Debug, Clone, PartialEq, Eq)]
pub struct Options {
    pub asset: String,
    pub min_length: u32,
    pub text_length: u32,
    pub compact: bool,
    pub multi_period: bool,
    pub wvtt: bool,
}

impl View for Options {
    type V = OptionsView;

    open spec fn view(&self) -> OptionsView {
        OptionsView {
            asset: self.asset@,
            min_length: self.min_length,
            text_length: self.text_length,
            compact: self.compact,
            multi_period: self.multi_period,
            wvtt: self.wvtt,
        }
    }
}

fn option_field(key: &str) -> (r: Option<OptionField>)
    ensures
        r == field_named(key@),
{
    let k = chars_of(key);
    let k = k.as_slice();
    if spells(k, "asset") || spells(k, "a") {
        Some(OptionField::Asset)
    } else if spells(k, "min_length") || spells(k, "sml") || spells(k, "segment_min_length") {
        Some(OptionField::MinLength)
    } else if spells(k, "text_length") || spells(k, "stl") || spells(k, "segment_text_length") {
        Some(OptionField::TextLength)
    } else if spells(k, "compact") || spells(k, "c") {
        Some(OptionField::Compact)
    } else if spells(k, "multi_period") || spells(k, "mp") {
        Some(OptionField::MultiPeriod)
    } else if spells(k, "wvtt") {
        Some(OptionField::Wvtt)
    } else {
        None
    }
}

proof fn lemma_value_of_none(fields: Seq<(Seq<char>, RisonValueView)>, field: OptionField, i: int)
    requires
        value_of(fields, field) is None,
        0 <= i < fields.len(),
    ensures
        field_named(fields[i].0) != Some(field),
    decreases fields.len(),
{
    if i < fields.len() - 1 {
        assert(fields.drop_last()[i] == fields[i]);
        lemma_value_of_none(fields.drop_last(), field, i);
    }
}

proof fn lemma_value_of_some(fields: Seq<(Seq<char>, RisonValueView)>, field: OptionField)
    requires
        value_of(fields, field) is Some,
    ensures
        exists|i: int| 0 <= i < fields.len() && field_named((#[trigger] fields[i]).0) == Some(field),
    decreases fields.len(),
{
    if field_named(fields.last().0) != Some(field) {
        lemma_value_of_some(fields.drop_last(), field);
        let i = choose|i: int|
            0 <= i < fields.drop_last().len() && field_named((#[trigger] fields.drop_last()[i]).0)
                == Some(field);
        assert(fields[i] == fields.drop_last()[i]);
    } else {
        assert(field_named(fields[fields.len() - 1].0) == Some(field));
    }
}

/// The option fields of `p.push(entry)` other than `entry`'s keep their values.
proof fn lemma_value_of_push(
    p: Seq<(Seq<char>, RisonValueView)>,
    entry: (Seq<char>, RisonValueView),
    field: OptionField,
)
    ensures
        value_of(p.push(entry), field) == if field_named(entry.0) == Some(field) {
            Some(entry.1)
        } else {
            value_of(p, field)
        },
{
    assert(p.push(entry).drop_last() =~= p);
}

/// `slot` holds the text `value` sets, or nothing where it sets none.
pub open spec fn text_slot(slot: Option<Seq<char>>, value: Option<RisonValueView>) -> bool {
    match value {
        None => slot is None,
        Some(v) => slot matches Some(s) && v == RisonValueView::Text(s),
    }
}

/// `slot` holds the length `value` sets, or nothing where it sets none.
pub open spec fn length_slot(slot: Option<u32>, value: Option<RisonValueView>) -> bool {
    match value {
        None => slot is None,
        Some(v) => slot matches Some(n) && v == RisonValueView::Number(Some(n as i64)),
    }
}

/// `slot` holds the flag `value` sets, or nothing where it sets none.
pub open spec fn flag_slot(slot: Option<bool>, value: Option<RisonValueView>) -> bool {
    match value {
        None => slot is None,
        Some(v) => slot matches Some(b) && v == RisonValueView::Flag(b),
    }
}

/// Every field of `fields` names an option of the right type, none twice.
pub open spec fn clean_prefix(fields: Seq<(Seq<char>, RisonValueView)>) -> bool {
    &&& forall|i: int|
        0 <= i < fields.len() ==> (field_named((#[trigger] fields[i]).0) matches Some(f) && fits(
            f,
            fields[i].1,
        ))
    &&& forall|i: int, j: int|
        0 <= i < j < fields.len() ==> field_named((#[trigger] fields[i]).0) != field_named(
            (#[trigger] fields[j]).0,
        )
}

/// The options the fields of a Rison object set: each field names an option by
/// its name or an alias and has its type, none is set twice and the asset is
/// set; the others default to 0 and `false`. Anything else is a
/// [`ServerError::BadRequest`].
pub fn options_from_fields(fields: &[(String, RisonValue)]) -> (r: Result<Options, ServerError>)
    ensures
        options_of(fields_view(fields@)) matches Some(o) ==> (r matches Ok(opts) && opts@ == o),
        options_of(fields_view(fields@)) is None ==> r matches Err(ServerError::BadRequest(_)),
{
    let ghost all = fields_view(fields@);
    let mut asset: Option<String> = None;
    let mut min_length: Option<u32> = None;
    let mut text_length: Option<u32> = None;
    let mut compact: Option<bool> = None;
    let mut multi_period: Option<bool> = None;
    let mut wvtt: Option<bool> = None;
    for i in 0..fields.len()
        invariant
            all == fields_view(fields@),
            clean_prefix(all.take(i as int)),
            text_slot(
                match asset {
                    Some(s) => Some(s@),
                    None => None,
                },
                value_of(all.take(i as int), OptionField::Asset),
            ),
            length_slot(min_length, value_of(all.take(i as int), OptionField::MinLength)),
            length_slot(text_length, value_of(all.take(i as int), OptionField::TextLength)),
            flag_slot(compact, value_of(all.take(i as int), OptionField::Compact)),
            flag_slot(multi_period, value_of(all.take(i as int), OptionField::MultiPeriod)),
            flag_slot(wvtt, value_of(all.take(i as int), OptionField::Wvtt)),
    {
        let ghost p = all.take(i as int);
        let ghost entry = all[i as int];
        proof {
            assert(all.take(i + 1) =~= p.push(entry));
            assert(entry == (fields@[i as int].0@, fields@[i as int].1@));
            lemma_value_of_push(p, entry, OptionField::Asset);
            lemma_value_of_push(p, entry, OptionField::MinLength);
            lemma_value_of_push(p, entry, OptionField::TextLength);
            lemma_value_of_push(p, entry, OptionField::Compact);
            lemma_value_of_push(p, entry, OptionField::MultiPeriod);
            lemma_value_of_push(p, entry, OptionField::Wvtt);
        }
        let (key, value) = &fields[i];
        let field = match option_field(key.as_str()) {
            Some(field) => field,
            None => {
                proof {
                    assert(!well_formed(all)) by {
                        assert(all[i as int] == entry);
                    }
                }
                return Err(ServerError::BadRequest(concat("unknown option: ", key.as_str())));
            },
        };
        let ghost taken = match field {
            OptionField::Asset => asset is Some,
            OptionField::MinLength => min_length is Some,
            OptionField::TextLength => text_length is Some,
            OptionField::Compact => compact is Some,
            OptionField::MultiPeriod => multi_period is Some,
            OptionField::Wvtt => wvtt is Some,
        };
        let twice = match field {
            OptionField::Asset => asset.is_some(),
            OptionField::MinLength => min_length.is_some(),
            OptionField::TextLength => text_length.is_some(),
            OptionField::Compact => compact.is_some(),
            OptionField::MultiPeriod => multi_period.is_some(),
            OptionField::Wvtt => wvtt.is_some(),
        };
        if twice {
            proof {
                assert(value_of(p, field) is Some);
                lemma_value_of_some(p, field);
                let j = choose|j: int| 0 <= j < p.len() && field_named((#[trigger] p[j]).0) == Some(field);
                assert(all[j] == p[j]);
                assert(all[i as int] == entry);
                assert(!well_formed(all)) by {
                    assert(field_named(all[j].0) == field_named(all[i as int].0));
                }
            }
            return Err(ServerError::BadRequest(concat("option set twice: ", key.as_str())));
        }
        let fitting = match (field, value) {
            (OptionField::Asset, RisonValue::Text(_)) => true,
            (OptionField::MinLength, RisonValue::Number(Some(n))) => 0 <= *n && *n <= 4294967295,
            (OptionField::TextLength, RisonValue::Number(Some(n))) => 0 <= *n && *n <= 4294967295,
            (OptionField::Compact, RisonValue::Flag(_)) => true,
            (OptionField::MultiPeriod, RisonValue::Flag(_)) => true,
            (OptionField::Wvtt, RisonValue::Flag(_)) => true,
            _ => false,
        };
        if !fitting {
            proof {
                assert(!well_formed(all)) by {
                    assert(all[i as int] == entry);
                    assert(!fits(field, entry.1));
                }
            }
            return Err(ServerError::BadRequest(concat("option of the wrong type: ", key.as_str())));
        }
        match value {
            RisonValue::Text(text) => {
                let chars = chars_of(text.as_str());
                asset = Some(string_of(chars.as_slice()));
            },
            RisonValue::Number(Some(n)) => {
                if field == OptionField::MinLength {
                    min_length = Some(*n as u32);
                } else {
                    text_length = Some(*n as u32);
                }
            },
            RisonValue::Flag(b) => {
                if field == OptionField::Compact {
                    compact = Some(*b);
                } else if field == OptionField::MultiPeriod {
                    multi_period = Some(*b);
                } else {
                    wvtt = Some(*b);
                }
            },
            _ => {},
        }
        proof {
            let q = all.take(i + 1);
            assert forall|a: int, b: int| 0 <= a < b < q.len() implies field_named((#[trigger] q[a]).0)
                != field_named((#[trigger] q[b]).0) by {
                if b == i {
                    assert(q[a] == p[a]);
                    if field_named(p[a].0) == Some(field) {
                        if value_of(p, field) is None {
                            lemma_value_of_none(p, field, a);
                        }
                    }
                } else {
                    assert(q[a] == p[a] && q[b] == p[b]);
                }
            }
            assert forall|a: int| 0 <= a < q.len() implies (field_named((#[trigger] q[a]).0) matches Some(
                f,
            ) && fits(f, q[a].1)) by {
                if a < i {
                    assert(q[a] == p[a]);
                }
            }
        }
    }
    proof {
        assert(all.take(fields@.len() as int) =~= all);
    }
    let asset = match asset {
        Some(asset) => asset,
        None => {
            proof {
                assert(!well_formed(all)) by {
                    if well_formed(all) {
                        let i = choose|i: int|
                            0 <= i < all.len() && field_named((#[trigger] all[i]).0) == Some(
                                OptionField::Asset,
                            );
                        lemma_value_of_none(all, OptionField::Asset, i);
                    }
                }
            }
            return Err(ServerError::BadRequest(concat("missing option: ", "asset")));
        },
    };
    let min_length = match min_length {
        Some(n) => n,
        None => 0,
    };
    let text_length = match text_length {
        Some(n) => n,
        None => 0,
    };
    let compact = match compact {
        Some(b) => b,
        None => false,
    };
    let multi_period = match multi_period {
        Some(b) => b,
        None => false,
    };
    let wvtt = match wvtt {
        Some(b) => b,
        None => false,
    };
    proof {
        assert(well_formed(all)) by {
            lemma_value_of_some(all, OptionField::Asset);
        }
    }
    Ok(Options { asset, min_length, text_length, compact, multi_period, wvtt })
}

impl Options {
    /// Reads the options of a request path: a Rison object, its parentheses
    /// optional. A fragment that is not one, that nests an object or a list in a
    /// value (no option takes one), or whose fields [`options_from_fields`]
    /// refuses, is a [`ServerError::BadRequest`].
    pub fn parse(fragment: &str) -> (r: Result<Options, ServerError>)
        ensures
            opens(as_object(fragment@)) > 1 ==> r matches Err(ServerError::BadRequest(_)),
            opens(as_object(fragment@)) <= 1 && rison_object(as_object(fragment@)) is None ==> r matches Err(ServerError::BadRequest(_)),
            opens(as_object(fragment@)) <= 1 ==> (rison_object(as_object(fragment@)) matches Some(fields)
                ==> fields.len() != entries(as_object(fragment@)) ==> r matches Err(ServerError::BadRequest(_))),
            opens(as_object(fragment@)) <= 1 ==> (rison_object(as_object(fragment@)) matches Some(fields)
                ==> fields.len() == entries(as_object(fragment@)) ==> ((options_of(fields) matches Some(o)
                ==> (r matches Ok(opts) && opts@ == o)) && (options_of(fields) is None
                ==> r matches Err(ServerError::BadRequest(_))))),
    {
        let chars = chars_of(fragment);
        let object = if chars.len() > 0 && chars[0] == '(' {
            string_of(chars.as_slice())
        } else {
            let mut wrapped: Vec<char> = Vec::new();
            wrapped.push('(');
            for i in 0..chars.len()
                invariant
                    wrapped@ == seq!['('] + chars@.take(i as int),
            {
                wrapped.push(chars[i]);
                proof {
                    assert(wrapped@ =~= seq!['('] + chars@.take(i + 1));
                }
            }
            wrapped.push(')');
            proof {
                assert(chars@.take(chars@.len() as int) =~= chars@);
                assert(wrapped@ =~= seq!['('] + chars@ + seq![')']);
            }
            string_of(wrapped.as_slice())
        };
        let object_chars = chars_of(object.as_str());
        if count_outside_of(object_chars.as_slice(), '(') > 1 {
            return Err(ServerError::BadRequest(concat("invalid options: ", "a value nests an object or a list")));
        }
        let empty = object_chars.len() == 2 && object_chars[0] == '(' && object_chars[1] == ')';
        proof {
            if empty {
                assert(object_chars@ =~= seq!['(', ')']);
            }
        }
        let commas = count_outside_of(object_chars.as_slice(), ',');
        match rison_fields(object.as_str()) {
            Ok(fields) => {
                let twice = if empty {
                    fields.len() != 0
                } else {
                    fields.len() == 0 || fields.len() - 1 != commas
                };
                if twice {
                    return Err(ServerError::BadRequest(concat("invalid options: ", "an option is given twice")));
                }
                options_from_fields(fields.as_slice())
            },
            Err(message) => Err(ServerError::BadRequest(concat("invalid options: ", message.as_str()))),
        }
    }

    /// Writes the lengths these options set into `descriptor`'s segment options;
    /// a length left at 0 keeps the descriptor's.
    pub fn apply_to(&self, descriptor: &mut AssetDescriptor)
        ensures
            final(descriptor).segment_options.min_length == if self.min_length != 0 {
                self.min_length
            } else {
                old(descriptor).segment_options.min_length
            },
            final(descriptor).segment_options.text_length == if self.text_length != 0 {
                self.text_length
            } else {
                old(descriptor).segment_options.text_length
            },
            final(descriptor).segment_options.boundaries@ == old(descriptor).segment_options.boundaries@,
    {
        if self.min_length != 0 {
            descriptor.segment_options.min_length = self.min_length;
        }
        if self.text_length != 0 {
            descriptor.segment_options.text_length = self.text_length;
        }
    }

    /// The asset the options name.
    pub fn asset(&self) -> (a: &str)
        ensures
            a@ == self.asset@,
    {
        self.asset.as_str()
    }

    /// How the DASH manifest is to be written.
    pub fn dash_options(&self) -> (d: DashOptions)
        ensures
            d == (DashOptions { compact: self.compact, multi_period: self.multi_period }),
    {
        DashOptions { compact: self.compact, multi_period: self.multi_period }
    }

    /// How the HLS playlists are to be written.
    pub fn hls_options(&self) -> (h: HlsOptions)
        ensures
            h == (HlsOptions { wvtt: self.wvtt }),
    {
        HlsOptions { wvtt: self.wvtt }
    }
}

/// Each option answers to its name and its aliases and to no other key: the
/// asset to `asset` and `a`; the minimum segment length to `min_length`, `sml`
/// and `segment_min_length`; the text segment length to `text_length`, `stl`
/// and `segment_text_length`; `compact` to `c` too, `multi_period` to `mp` too;
/// and `wvtt` to itself alone.
pub proof fn options_answer_to_their_aliases(key: Seq<char>)
    ensures
        field_named(key) == Some(OptionField::Asset) <==> (key == "asset"@ || key == "a"@),
        field_named(key) == Some(OptionField::MinLength) <==> (key == "min_length"@ || key
            == "sml"@ || key == "segment_min_length"@),
        field_named(key) == Some(OptionField::TextLength) <==> (key == "text_length"@ || key
            == "stl"@ || key == "segment_text_length"@),
        field_named(key) == Some(OptionField::Compact) <==> (key == "compact"@ || key == "c"@),
        field_named(key) == Some(OptionField::MultiPeriod) <==> (key == "multi_period"@ || key
            == "mp"@),
        field_named(key) == Some(OptionField::Wvtt) <==> key == "wvtt"@,
{
    reveal_strlit("asset");
    reveal_strlit("a");
    reveal_strlit("min_length");
    reveal_strlit("sml");
    reveal_strlit("segment_min_length");
    reveal_strlit("text_length");
    reveal_strlit("stl");
    reveal_strlit("segment_text_length");
    reveal_strlit("compact");
    reveal_strlit("c");
    reveal_strlit("multi_period");
    reveal_strlit("mp");
    reveal_strlit("wvtt");
    assert("asset"@.len() == 5 && "a"@.len() == 1 && "min_length"@.len() == 10);
    assert("sml"@.len() == 3 && "segment_min_length"@.len() == 18);
    assert("text_length"@.len() == 11 && "stl"@.len() == 3 && "segment_text_length"@.len() == 19);
    assert("compact"@.len() == 7 && "c"@.len() == 1 && "multi_period"@.len() == 12);
    assert("mp"@.len() == 2 && "wvtt"@.len() == 4);
    assert("a"@[0] != "c"@[0]);
    assert("sml"@[1] != "stl"@[1]);
    if key == "sml"@ {
        assert(key != "stl"@);
    }
    if key == "stl"@ {
        assert(key != "sml"@);
    }
}

/// The value the one field that names `field` gives it.
proof fn lemma_value_of_only(fields: Seq<(Seq<char>, RisonValueView)>, field: OptionField, i: int)
    requires
        0 <= i < fields.len(),
        field_named(fields[i].0) == Some(field),
        forall|j: int| 0 <= j < fields.len() && j != i ==> field_named((#[trigger] fields[j]).0) != Some(field),
    ensures
        value_of(fields, field) == Some(fields[i].1),
    decreases fields.len(),
{
    if i < fields.len() - 1 {
        assert(field_named(fields[fields.len() - 1].0) != Some(field));
        assert forall|j: int| 0 <= j < fields.drop_last().len() && j != i implies field_named(
            (#[trigger] fields.drop_last()[j]).0,
        ) != Some(field) by {
            assert(fields.drop_last()[j] == fields[j]);
        }
        assert(fields.drop_last()[i] == fields[i]);
        lemma_value_of_only(fields.drop_last(), field, i);
    }
}

/// An option no field names has no value.
proof fn lemma_value_of_absent(fields: Seq<(Seq<char>, RisonValueView)>, field: OptionField)
    requires
        forall|j: int| 0 <= j < fields.len() ==> field_named((#[trigger] fields[j]).0) != Some(field),
    ensures
        value_of(fields, field) is None,
    decreases fields.len(),
{
    if fields.len() > 0 {
        assert(field_named(fields[fields.len() - 1].0) != Some(field));
        assert forall|j: int| 0 <= j < fields.drop_last().len() implies field_named(
            (#[trigger] fields.drop_last()[j]).0,
        ) != Some(field) by {
            assert(fields.drop_last()[j] == fields[j]);
        }
        lemma_value_of_absent(fields.drop_last(), field);
    }
}

/// A length given under any name of an option sets that option: where `fields`
/// make options, a field keyed `text_length`, `stl` or `segment_text_length`
/// sets the text segment length to its number, and one keyed `min_length`,
/// `sml` or `segment_min_length` the minimum segment length. A length no field
/// sets under any of its names stays 0.
pub proof fn lengths_go_where_their_keys_say(fields: Seq<(Seq<char>, RisonValueView)>, i: int)
    requires
        options_of(fields) is Some,
        0 <= i < fields.len(),
    ensures
        (fields[i].0 == "text_length"@ || fields[i].0 == "stl"@ || fields[i].0
            == "segment_text_length"@) ==> (fields[i].1 matches RisonValueView::Number(Some(n))
            && options_of(fields) matches Some(o) && o.text_length == n),
        (fields[i].0 == "min_length"@ || fields[i].0 == "sml"@ || fields[i].0
            == "segment_min_length"@) ==> (fields[i].1 matches RisonValueView::Number(Some(n))
            && options_of(fields) matches Some(o) && o.min_length == n),
        (forall|j: int|
            0 <= j < fields.len() ==> !(#[trigger] fields[j].0 == "text_length"@ || fields[j].0
                == "stl"@ || fields[j].0 == "segment_text_length"@)) ==> (options_of(
            fields,
        ) matches Some(o) && o.text_length == 0),
        (forall|j: int|
            0 <= j < fields.len() ==> !(#[trigger] fields[j].0 == "min_length"@ || fields[j].0
                == "sml"@ || fields[j].0 == "segment_min_length"@)) ==> (options_of(
            fields,
        ) matches Some(o) && o.min_length == 0),
{
    assert(well_formed(fields));
    options_answer_to_their_aliases(fields[i].0);
    let f = field_named(fields[i].0)->0;
    assert(fits(f, fields[i].1));
    assert forall|j: int| 0 <= j < fields.len() && j != i implies field_named(
        (#[trigger] fields[j]).0,
    ) != Some(f) by {
        if j < i {
            assert(field_named(fields[j].0) != field_named(fields[i].0));
        } else {
            assert(field_named(fields[i].0) != field_named(fields[j].0));
        }
    }
    lemma_value_of_only(fields, f, i);
    if forall|j: int|
        0 <= j < fields.len() ==> !(#[trigger] fields[j].0 == "text_length"@ || fields[j].0
            == "stl"@ || fields[j].0 == "segment_text_length"@) {
        assert forall|j: int| 0 <= j < fields.len() implies field_named(
            (#[trigger] fields[j]).0,
        ) != Some(OptionField::TextLength) by {
            options_answer_to_their_aliases(fields[j].0);
        }
        lemma_value_of_absent(fields, OptionField::TextLength);
    }
    if forall|j: int|
        0 <= j < fields.len() ==> !(#[trigger] fields[j].0 == "min_length"@ || fields[j].0
            == "sml"@ || fields[j].0 == "segment_min_length"@) {
        assert forall|j: int| 0 <= j < fields.len() implies field_named(
            (#[trigger] fields[j]).0,
        ) != Some(OptionField::MinLength) by {
            options_answer_to_their_aliases(fields[j].0);
        }
        lemma_value_of_absent(fields, OptionField::MinLength);
    }
}

} // verus!
