use vstd::prelude::*;

verus! {

/// The smallest and largest character length a text field may have.
pub const MIN_TEXT_LEN: usize = 1;

pub const MAX_TEXT_LEN: usize = 50;

/// One record: a number and four text fields.
///
/// The number is carried as an order-preserving 64-bit key (the standard
/// total-order encoding of an IEEE 754 double: callers flip all bits of a
/// negative value and set the sign bit of a non-negative one) together with
/// its decimal rendering, so that comparing keys compares the underlying
/// numbers and rendering needs no numeric formatting here.
#[derive(Debug, Clone, PartialEq)]
pub struct Prompt {
    pub number_key: u64,
    pub number_text: String,
    pub unit_of_measure: String,
    pub place: String,
    pub adjective: String,
    pub noun: String,
}

/// The mathematical content of a `Prompt`.
pub struct PromptModel {
    pub number_key: u64,
    pub number_text: Seq<char>,
    pub unit_of_measure: Seq<char>,
    pub place: Seq<char>,
    pub adjective: Seq<char>,
    pub noun: Seq<char>,
}

impl View for Prompt {
    type V = PromptModel;

    open spec fn view(&self) -> PromptModel {
        PromptModel {
            number_key: self.number_key,
            number_text: self.number_text@,
            unit_of_measure: self.unit_of_measure@,
            place: self.place@,
            adjective: self.adjective@,
            noun: self.noun@,
        }
    }
}

/// A text field is acceptable when its character length lies in
/// `[MIN_TEXT_LEN, MAX_TEXT_LEN]`.
pub open spec fn text_len_ok(s: Seq<char>) -> bool {
    MIN_TEXT_LEN <= s.len() <= MAX_TEXT_LEN
}

/// A record is valid when all four text fields are acceptable.
pub open spec fn prompt_valid(p: PromptModel) -> bool {
    &&& text_len_ok(p.unit_of_measure)
    &&& text_len_ok(p.place)
    &&& text_len_ok(p.adjective)
    &&& text_len_ok(p.noun)
}

/// The story sentence for a record: the fixed template with the number's
/// decimal rendering and the four text fields substituted.
pub open spec fn story_of(p: PromptModel) -> Seq<char> {
    "One day Anna was walking her "@ + p.number_text + " "@ + p.unit_of_measure
        + " commute to "@ + p.place + " and found a "@ + p.adjective + " "@ + p.noun
        + " on the ground."@
}

/// Names the text fields, for error reporting.
#[derive(Clone, Copy, PartialEq, Eq, Structural, Debug)]
pub enum FieldName {
    UnitOfMeasure,
    Place,
    Adjective,
    Noun,
}

/// Lists every field whose length constraint failed, in declaration order.
#[derive(Debug, Clone, PartialEq)]
pub struct ValidationError {
    pub fields: Vec<FieldName>,
}

/// The fields of `p` that violate the length constraint, in declaration order.
pub open spec fn violating_fields(p: PromptModel) -> Seq<FieldName> {
    let a = if !text_len_ok(p.unit_of_measure) {
        seq![FieldName::UnitOfMeasure]
    } else {
        Seq::empty()
    };
    let b = if !text_len_ok(p.place) {
        seq![FieldName::Place]
    } else {
        Seq::empty()
    };
    let c = if !text_len_ok(p.adjective) {
        seq![FieldName::Adjective]
    } else {
        Seq::empty()
    };
    let d = if !text_len_ok(p.noun) {
        seq![FieldName::Noun]
    } else {
        Seq::empty()
    };
    a + b + c + d
}

impl Prompt {
    /// Checks the length constraint on each of the four text fields and
    /// reports every violating field, not just the first.
    pub fn validate(&self) -> (r: Result<(), ValidationError>)
        ensures
            r is Ok <==> prompt_valid(self@),
            r matches Err(e) ==> e.fields@ == violating_fields(self@),
    {
        let mut bad: Vec<FieldName> = Vec::new();
        if !(MIN_TEXT_LEN <= self.unit_of_measure.as_str().unicode_len()
            && self.unit_of_measure.as_str().unicode_len() <= MAX_TEXT_LEN) {
            bad.push(FieldName::UnitOfMeasure);
        }
        if !(MIN_TEXT_LEN <= self.place.as_str().unicode_len() && self.place.as_str().unicode_len()
            <= MAX_TEXT_LEN) {
            bad.push(FieldName::Place);
        }
        if !(MIN_TEXT_LEN <= self.adjective.as_str().unicode_len()
            && self.adjective.as_str().unicode_len() <= MAX_TEXT_LEN) {
            bad.push(FieldName::Adjective);
        }
        if !(MIN_TEXT_LEN <= self.noun.as_str().unicode_len() && self.noun.as_str().unicode_len()
            <= MAX_TEXT_LEN) {
            bad.push(FieldName::Noun);
        }
        if bad.len() == 0 {
            assert(bad@ =~= violating_fields(self@));
            Ok(())
        } else {
            assert(bad@ =~= violating_fields(self@));
            Err(ValidationError { fields: bad })
        }
    }

    /// Renders the record into the story template.
    pub fn render(&self) -> (r: String)
        ensures
            r@ == story_of(self@),
    {
        let mut out = "One day Anna was walking her ".to_owned();
        out.append(self.number_text.as_str());
        out.append(" ");
        out.append(self.unit_of_measure.as_str());
        out.append(" commute to ");
        out.append(self.place.as_str());
        out.append(" and found a ");
        out.append(self.adjective.as_str());
        out.append(" ");
        out.append(self.noun.as_str());
        out.append(" on the ground.");
        proof {
            assert(out@ =~= story_of(self@));
        }
        out
    }
}

/// Every record whose four text fields all have acceptable length validates
/// successfully.
pub proof fn lemma_valid_prompt_accepted(p: PromptModel)
    requires
        text_len_ok(p.unit_of_measure),
        text_len_ok(p.place),
        text_len_ok(p.adjective),
        text_len_ok(p.noun),
    ensures
        prompt_valid(p),
        violating_fields(p).len() == 0,
{
    assert(violating_fields(p) =~= Seq::<FieldName>::empty());
}

/// Every record with a text field of unacceptable length fails validation,
/// and the violating field appears in the reported list.
pub proof fn lemma_invalid_field_reported(p: PromptModel, f: FieldName)
    requires
        f == FieldName::UnitOfMeasure ==> !text_len_ok(p.unit_of_measure),
        f == FieldName::Place ==> !text_len_ok(p.place),
        f == FieldName::Adjective ==> !text_len_ok(p.adjective),
        f == FieldName::Noun ==> !text_len_ok(p.noun),
    ensures
        !prompt_valid(p),
        violating_fields(p).contains(f),
{
    let vs = violating_fields(p);
    match f {
        FieldName::UnitOfMeasure => {
            assert(vs[0] == f);
        },
        FieldName::Place => {
            let i = if !text_len_ok(p.unit_of_measure) {
                1int
            } else {
                0int
            };
            assert(vs[i] == f);
        },
        FieldName::Adjective => {
            let i = (if !text_len_ok(p.unit_of_measure) {
                1int
            } else {
                0int
            }) + (if !text_len_ok(p.place) {
                1int
            } else {
                0int
            });
            assert(vs[i] == f);
        },
        FieldName::Noun => {
            let i = (if !text_len_ok(p.unit_of_measure) {
                1int
            } else {
                0int
            }) + (if !text_len_ok(p.place) {
                1int
            } else {
                0int
            }) + (if !text_len_ok(p.adjective) {
                1int
            } else {
                0int
            });
            assert(vs[i] == f);
        },
    }
}

} // verus!
