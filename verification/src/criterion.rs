//! The ranking criteria that a search can be asked to apply, and their
//! textual form.

use vstd::prelude::*;
use vstd::string::StringExecFns;

verus! {

/// One ranking rule of a search.
#[derive(Debug, Clone, PartialEq, Eq)]
pub enum Criterion {
    /// Sorted by decreasing number of matched query terms.
    /// Query words at the front of an attribute is considered better than if it was at the back.
    Words,
    /// Sorted by increasing number of typos.
    Typo,
    /// Sorted by increasing distance between matched query terms.
    Proximity,
    /// Documents with query words contained in more important
    /// attributes are considered better.
    Attribute,
    /// Sorted by the similarity of the matched words with the query words.
    Exactness,
    /// Sorted by the increasing value of the field specified.
    Asc(String),
    /// Sorted by the decreasing value of the field specified.
    Desc(String),
}

/// A criterion, with the name of its field as a sequence of characters.
pub enum CriterionModel {
    Words,
    Typo,
    Proximity,
    Attribute,
    Exactness,
    Asc(Seq<char>),
    Desc(Seq<char>),
}

impl View for Criterion {
    type V = CriterionModel;

    open spec fn view(&self) -> CriterionModel {
        match self {
            Criterion::Words => CriterionModel::Words,
            Criterion::Typo => CriterionModel::Typo,
            Criterion::Proximity => CriterionModel::Proximity,
            Criterion::Attribute => CriterionModel::Attribute,
            Criterion::Exactness => CriterionModel::Exactness,
            Criterion::Asc(field) => CriterionModel::Asc(field@),
            Criterion::Desc(field) => CriterionModel::Desc(field@),
        }
    }
}

/// Why a text names no criterion.
#[derive(Debug, Clone, PartialEq, Eq)]
pub enum InvalidCriterion {
    /// The text is not the name of a criterion.
    UnknownName(String),
    /// The text asks to sort by a field that is not faceted.
    NotFaceted(String),
}

/// A refusal, with its text as a sequence of characters.
pub enum InvalidCriterionModel {
    UnknownName(Seq<char>),
    NotFaceted(Seq<char>),
}

impl View for InvalidCriterion {
    type V = InvalidCriterionModel;

    open spec fn view(&self) -> InvalidCriterionModel {
        match self {
            InvalidCriterion::UnknownName(name) => InvalidCriterionModel::UnknownName(name@),
            InvalidCriterion::NotFaceted(field) => InvalidCriterionModel::NotFaceted(field@),
        }
    }
}

/// The texts of the first two groups of the first place in `text` that
/// matches the regular expression `pattern`; `None` where `pattern` is no
/// regular expression, has fewer than two groups that took part in the
/// match, or matches nowhere in `text`.
pub uninterp spec fn regex_captures(pattern: Seq<char>, text: Seq<char>) -> Option<
    (Seq<char>, Seq<char>),
>;

/// The pattern of a criterion with a field: `asc` or `desc`, an opening
/// bracket, one or more word characters, `_` or `-`, and a closing bracket.
pub open spec fn order_pattern() -> Seq<char> {
    "(asc|desc)\\(([\\w_-]+)\\)"@
}

/// What a pair of strings stands for.
pub open spec fn captures_of(caps: Option<(String, String)>) -> Option<(Seq<char>, Seq<char>)> {
    match caps {
        None => None,
        Some((order, field)) => Some((order@, field@)),
    }
}

/// Compiles `pattern` with `regex::Regex::new`, searches `text` with
/// `regex::Regex::captures` and returns the texts of the first two groups.
/// The search depends on the pattern and the text alone, so its result has
/// a name; nothing more is claimed of it.
#[verifier::external_body]
fn capture_pair(pattern: &str, text: &str) -> (caps: Option<(String, String)>)
    ensures
        captures_of(caps) == regex_captures(pattern@, text@),
{
    let regex = regex::Regex::new(pattern).ok()?;
    let caps = regex.captures(text)?;
    Some((caps.get(1)?.as_str().to_string(), caps.get(2)?.as_str().to_string()))
}

/// The names that `faceted_attributes` holds.
pub open spec fn names_of(faceted_attributes: Seq<String>) -> Set<Seq<char>> {
    Set::new(
        |name: Seq<char>|
            exists|i: int|
                0 <= i < faceted_attributes.len() && (#[trigger] faceted_attributes[i])@ == name,
    )
}

/// The criterion that `text` names, given what the search for an order and a
/// field found in it.
pub open spec fn parsed(
    faceted: Set<Seq<char>>,
    text: Seq<char>,
    caps: Option<(Seq<char>, Seq<char>)>,
) -> Result<CriterionModel, InvalidCriterionModel> {
    if text == "words"@ {
        Ok(CriterionModel::Words)
    } else if text == "typo"@ {
        Ok(CriterionModel::Typo)
    } else if text == "proximity"@ {
        Ok(CriterionModel::Proximity)
    } else if text == "attribute"@ {
        Ok(CriterionModel::Attribute)
    } else if text == "exactness"@ {
        Ok(CriterionModel::Exactness)
    } else {
        parsed_order(faceted, text, caps)
    }
}

/// The criterion of a text that is none of the five plain names: the text
/// must be, as a whole, the order that was found in it, an opening bracket,
/// the field that was found in it, and a closing bracket.
pub open spec fn parsed_order(
    faceted: Set<Seq<char>>,
    text: Seq<char>,
    caps: Option<(Seq<char>, Seq<char>)>,
) -> Result<CriterionModel, InvalidCriterionModel> {
    match caps {
        None => Err(InvalidCriterionModel::UnknownName(text)),
        Some((order, field)) => if text != order + "("@ + field + ")"@ {
            Err(InvalidCriterionModel::UnknownName(text))
        } else if !faceted.contains(field) {
            Err(InvalidCriterionModel::NotFaceted(field))
        } else if order == "asc"@ {
            Ok(CriterionModel::Asc(field))
        } else if order == "desc"@ {
            Ok(CriterionModel::Desc(field))
        } else {
            Err(InvalidCriterionModel::UnknownName(order))
        },
    }
}

/// The text of a criterion.
pub open spec fn rendered(criterion: CriterionModel) -> Seq<char> {
    match criterion {
        CriterionModel::Words => "words"@,
        CriterionModel::Typo => "typo"@,
        CriterionModel::Proximity => "proximity"@,
        CriterionModel::Attribute => "attribute"@,
        CriterionModel::Exactness => "exactness"@,
        CriterionModel::Asc(field) => "asc("@ + field + ")"@,
        CriterionModel::Desc(field) => "desc("@ + field + ")"@,
    }
}

/// What a result of parsing stands for.
pub open spec fn outcome_of(result: Result<Criterion, InvalidCriterion>) -> Result<
    CriterionModel,
    InvalidCriterionModel,
> {
    match result {
        Ok(criterion) => Ok(criterion@),
        Err(refusal) => Err(refusal@),
    }
}

/// Whether two texts are the same.
fn same_text(a: &str, b: &str) -> (same: bool)
    ensures
        same == (a@ == b@),
{
    String::from_str(a) == String::from_str(b)
}

/// Whether `name` is one of `faceted_attributes`.
fn is_faceted(faceted_attributes: &[String], name: &str) -> (found: bool)
    ensures
        found == names_of(faceted_attributes@).contains(name@),
{
    let mut at: usize = 0;
    while at < faceted_attributes.len()
        invariant
            at <= faceted_attributes@.len(),
            forall|i: int| 0 <= i < at ==> (#[trigger] faceted_attributes@[i])@ != name@,
        decreases faceted_attributes@.len() - at,
    {
        if same_text(faceted_attributes[at].as_str(), name) {
            return true;
        }
        at += 1;
    }
    false
}

impl Criterion {
    /// Reads a criterion from its name. `asc(field)` and `desc(field)` are
    /// accepted where `field` is one of `faceted_attributes`.
    pub fn from_str(faceted_attributes: &[String], txt: &str) -> (result: Result<
        Criterion,
        InvalidCriterion,
    >)
        ensures
            outcome_of(result) == parsed(
                names_of(faceted_attributes@),
                txt@,
                regex_captures(order_pattern(), txt@),
            ),
    {
        if same_text(txt, "words") {
            Ok(Criterion::Words)
        } else if same_text(txt, "typo") {
            Ok(Criterion::Typo)
        } else if same_text(txt, "proximity") {
            Ok(Criterion::Proximity)
        } else if same_text(txt, "attribute") {
            Ok(Criterion::Attribute)
        } else if same_text(txt, "exactness") {
            Ok(Criterion::Exactness)
        } else {
            let caps = capture_pair("(asc|desc)\\(([\\w_-]+)\\)", txt);
            Criterion::from_captures(faceted_attributes, txt, caps)
        }
    }

    /// Reads a criterion from a text that is none of the five plain names,
    /// given the order and the field that were found in it. The text is
    /// refused unless it is, as a whole, that order with that field in
    /// brackets.
    pub fn from_captures(
        faceted_attributes: &[String],
        txt: &str,
        caps: Option<(String, String)>,
    ) -> (result: Result<Criterion, InvalidCriterion>)
        ensures
            outcome_of(result) == parsed_order(
                names_of(faceted_attributes@),
                txt@,
                captures_of(caps),
            ),
    {
        match caps {
            None => Err(InvalidCriterion::UnknownName(String::from_str(txt))),
            Some((order, field_name)) => {
                let whole = String::from_str(order.as_str()).concat("(").concat(
                    field_name.as_str(),
                ).concat(")");
                if !same_text(whole.as_str(), txt) {
                    Err(InvalidCriterion::UnknownName(String::from_str(txt)))
                } else if !is_faceted(faceted_attributes, field_name.as_str()) {
                    Err(InvalidCriterion::NotFaceted(field_name))
                } else if same_text(order.as_str(), "asc") {
                    Ok(Criterion::Asc(field_name))
                } else if same_text(order.as_str(), "desc") {
                    Ok(Criterion::Desc(field_name))
                } else {
                    Err(InvalidCriterion::UnknownName(order))
                }
            },
        }
    }

    /// The name of the criterion, as `from_str` reads it.
    pub fn to_string(&self) -> (text: String)
        ensures
            text@ == rendered(self@),
    {
        match self {
            Criterion::Words => String::from_str("words"),
            Criterion::Typo => String::from_str("typo"),
            Criterion::Proximity => String::from_str("proximity"),
            Criterion::Attribute => String::from_str("attribute"),
            Criterion::Exactness => String::from_str("exactness"),
            Criterion::Asc(attr) => String::from_str("asc(").concat(attr.as_str()).concat(")"),
            Criterion::Desc(attr) => String::from_str("desc(").concat(attr.as_str()).concat(")"),
        }
    }
}

impl InvalidCriterion {
    /// The refusal in words.
    pub fn message(&self) -> (text: String)
        ensures
            text@ == match self@ {
                InvalidCriterionModel::UnknownName(name) => "unknown criterion name: "@ + name,
                InvalidCriterionModel::NotFaceted(field) => "Can't use \""@ + field
                    + "\" as a criterion as it isn't a faceted field."@,
            },
    {
        match self {
            InvalidCriterion::UnknownName(name) => String::from_str(
                "unknown criterion name: ",
            ).concat(name.as_str()),
            InvalidCriterion::NotFaceted(field) => String::from_str("Can't use \"").concat(
                field.as_str(),
            ).concat("\" as a criterion as it isn't a faceted field."),
        }
    }
}

/// The criteria of a search that asks for none, in their order.
pub fn default_criteria() -> (criteria: Vec<Criterion>)
    ensures
        criteria@.len() == 5,
        criteria@[0] == Criterion::Words,
        criteria@[1] == Criterion::Typo,
        criteria@[2] == Criterion::Proximity,
        criteria@[3] == Criterion::Attribute,
        criteria@[4] == Criterion::Exactness,
{
    let mut criteria: Vec<Criterion> = Vec::new();
    criteria.push(Criterion::Words);
    criteria.push(Criterion::Typo);
    criteria.push(Criterion::Proximity);
    criteria.push(Criterion::Attribute);
    criteria.push(Criterion::Exactness);
    criteria
}

/// The text of a criterion without a field reads as this criterion,
/// whatever the faceted fields are.
pub proof fn lemma_render_then_parse(
    faceted: Set<Seq<char>>,
    criterion: CriterionModel,
    caps: Option<(Seq<char>, Seq<char>)>,
)
    requires
        !(criterion is Asc),
        !(criterion is Desc),
    ensures
        parsed(faceted, rendered(criterion), caps) == Ok::<CriterionModel, InvalidCriterionModel>(
            criterion,
        ),
{
    reveal_strlit("words");
    reveal_strlit("typo");
    reveal_strlit("proximity");
    reveal_strlit("attribute");
    reveal_strlit("exactness");
    assert("words"@.len() == 5 && "typo"@.len() == 4);
    assert("proximity"@[0] == 'p' && "attribute"@[0] == 'a' && "exactness"@[0] == 'e');
}

/// A text that reads as a criterion is the text of this criterion,
/// whatever was found in it.
pub proof fn lemma_parse_then_render(
    faceted: Set<Seq<char>>,
    text: Seq<char>,
    caps: Option<(Seq<char>, Seq<char>)>,
)
    requires
        parsed(faceted, text, caps) is Ok,
    ensures
        rendered(parsed(faceted, text, caps)->Ok_0) == text,
{
    reveal_strlit("asc");
    reveal_strlit("desc");
    reveal_strlit("asc(");
    reveal_strlit("desc(");
    reveal_strlit("(");
    reveal_strlit(")");
    assert("asc"@ + "("@ =~= "asc("@);
    assert("desc"@ + "("@ =~= "desc("@);
}

} // verus!
