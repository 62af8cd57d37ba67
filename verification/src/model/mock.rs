//! Deterministic in-process model, for tests and as the baseline of evaluations.

use serde_json::Value;
use vstd::prelude::*;

use crate::json::{json_written, opt_json, value_copy, value_text, Json};
use crate::model::{Completion, CompletionRequest, ModelId};
use crate::text::{contains_text, copy_list, occurs_in, views};

verus! {

/// Answers "yes" to a request iff its input contains one of some texts. A
/// request with a schema is answered by a JSON object instead, where one is
/// given. It keeps what it was asked.
#[derive(Debug)]
pub struct MockModel {
    truthy: Vec<String>,
    inputs: Vec<String>,
    schemas: Vec<Option<Value>>,
}

/// The contents of some optional JSON values.
pub open spec fn opt_jsons(values: Seq<Option<Value>>) -> Seq<Option<Json>> {
    values.map_values(|v: Option<Value>| opt_json(v))
}

/// Whether a text contains one of some others.
pub open spec fn has_any(input: Seq<char>, needles: Seq<Seq<char>>) -> bool {
    exists|i: int| 0 <= i < needles.len() && occurs_in(#[trigger] needles[i], input)
}

/// What is answered to a request, by the object that a responder gives.
pub open spec fn mock_text(
    truthy: Seq<Seq<char>>,
    input: Seq<char>,
    schema: bool,
    object: Option<Json>,
) -> Seq<char> {
    if schema && object is Some {
        json_written(object->0)
    } else if has_any(input, truthy) {
        "yes"@
    } else {
        "no"@
    }
}

/// How many bytes a text takes.
pub open spec fn byte_len(s: Seq<char>) -> nat {
    vstd::utf8::encode_utf8(s).len()
}

impl MockModel {
    /// The texts that are answered "yes" to.
    pub closed spec fn needles(&self) -> Seq<Seq<char>> {
        views(self.truthy@)
    }

    /// The inputs of the requests served, in order.
    pub closed spec fn served(&self) -> Seq<Seq<char>> {
        views(self.inputs@)
    }

    /// The schemas of the requests served, in order.
    pub closed spec fn schemas_served(&self) -> Seq<Option<Json>> {
        opt_jsons(self.schemas@)
    }

    /// A mock that answers "yes" whenever the input contains any of some texts,
    /// and "no" otherwise.
    pub fn answering_yes_to(needles: Vec<String>) -> (r: MockModel)
        ensures
            r.needles() == views(needles@),
            r.served() == Seq::<Seq<char>>::empty(),
            r.schemas_served() == Seq::<Option<Json>>::empty(),
    {
        let r = MockModel { truthy: needles, inputs: Vec::new(), schemas: Vec::new() };
        assert(r.served() =~= Seq::<Seq<char>>::empty());
        assert(r.schemas_served() =~= Seq::<Option<Json>>::empty());
        r
    }

    /// The mock, answering "yes" to other texts: one mock can gate a filter and
    /// serve typed extraction on the survivors.
    pub fn also_answering_yes_to(self, needles: Vec<String>) -> (r: MockModel)
        ensures
            r.needles() == views(needles@),
            r.served() == self.served(),
            r.schemas_served() == self.schemas_served(),
    {
        MockModel { truthy: needles, inputs: self.inputs, schemas: self.schemas }
    }

    pub fn id(&self) -> (r: ModelId)
        ensures
            r@ == "mock"@,
    {
        ModelId("mock".to_owned())
    }

    fn matches_any(&self, input: &str) -> (r: bool)
        ensures
            r == has_any(input@, self.needles()),
    {
        let mut i: usize = 0;
        while i < self.truthy.len()
            invariant
                i <= self.truthy.len(),
                forall|k: int|
                    0 <= k < i ==> !occurs_in(#[trigger] views(self.truthy@)[k], input@),
            decreases self.truthy.len() - i,
        {
            if contains_text(input, self.truthy[i].as_str()) {
                assert(views(self.truthy@)[i as int] == self.truthy@[i as int]@);
                return true;
            }
            i += 1;
        }
        false
    }

    /// Answers one request; the object is what a responder makes of it, where
    /// there is a responder.
    pub fn complete_one(&mut self, request: &CompletionRequest, object: &Option<Value>) -> (r:
        Completion)
        ensures
            r.text@ == mock_text(
                old(self).needles(),
                request.input@,
                request.schema is Some,
                opt_json(*object),
            ),
            r.input_tokens == byte_len(request.input@) / 4,
            r.output_tokens == byte_len(r.text@) / 4 + 1,
            final(self).needles() == old(self).needles(),
            final(self).served() == old(self).served().push(request.input@),
            final(self).schemas_served() == old(self).schemas_served().push(
                opt_json(request.schema),
            ),
    {
        let text: String = match object {
            Some(object) => if request.schema.is_some() {
                value_text(object)
            } else if self.matches_any(request.input.as_str()) {
                "yes".to_owned()
            } else {
                "no".to_owned()
            },
            None => if self.matches_any(request.input.as_str()) {
                "yes".to_owned()
            } else {
                "no".to_owned()
            },
        };
        let ghost inputs = views(self.inputs@);
        let ghost schemas = opt_jsons(self.schemas@);
        self.inputs.push(request.input.clone());
        let schema: Option<Value> = match &request.schema {
            Some(schema) => Some(value_copy(schema)),
            None => None,
        };
        assert(opt_json(schema) == opt_json(request.schema));
        self.schemas.push(schema);
        assert(views(self.inputs@) =~= inputs.push(request.input@));
        assert(opt_jsons(self.schemas@) =~= schemas.push(opt_json(schema)));
        let output_tokens: usize = text.as_str().as_bytes().len() / 4 + 1;
        let input_tokens: usize = request.input.as_str().as_bytes().len() / 4;
        Completion { text, input_tokens, output_tokens }
    }

    /// Completion requests served so far.
    pub fn completion_calls(&self) -> (r: usize)
        ensures
            r == self.served().len(),
    {
        self.inputs.len()
    }

    /// The input of every completion request served, in order.
    pub fn completion_inputs(&self) -> (r: Vec<String>)
        ensures
            views(r@) == self.served(),
    {
        copy_list(&self.inputs)
    }

    /// The schema of every completion request served, in order.
    pub fn completion_schemas(&self) -> (r: Vec<Option<Value>>)
        ensures
            opt_jsons(r@) == self.schemas_served(),
    {
        let ghost all = opt_jsons(self.schemas@);
        let mut out: Vec<Option<Value>> = Vec::new();
        let mut i: usize = 0;
        while i < self.schemas.len()
            invariant
                i <= self.schemas.len(),
                all == opt_jsons(self.schemas@),
                opt_jsons(out@) == all.take(i as int),
            decreases self.schemas.len() - i,
        {
            let schema: Option<Value> = match &self.schemas[i] {
                Some(schema) => Some(value_copy(schema)),
                None => None,
            };
            let ghost before = opt_jsons(out@);
            out.push(schema);
            assert(all[i as int] == opt_json(self.schemas@[i as int]));
            assert(opt_jsons(out@) =~= before.push(opt_json(schema)));
            assert(all.take(i + 1) =~= all.take(i as int).push(all[i as int]));
            i += 1;
        }
        assert(all.take(i as int) =~= all);
        out
    }
}

/// The mock says yes exactly where one of its texts stands in the input, unless a
/// schema is answered with an object.
pub proof fn a_needle_in_the_input_is_a_yes(
    truthy: Seq<Seq<char>>,
    input: Seq<char>,
    needle: Seq<char>,
    object: Option<Json>,
)
    ensures
        truthy.contains(needle) && occurs_in(needle, input) ==> mock_text(
            truthy,
            input,
            false,
            object,
        ) == "yes"@ && mock_text(truthy, input, true, None) == "yes"@,
        mock_text(truthy, input, false, object) == "yes"@ ==> exists|i: int|
            0 <= i < truthy.len() && occurs_in(#[trigger] truthy[i], input),
{
    reveal_strlit("yes");
    reveal_strlit("no");
    assert("yes"@.len() == 3 && "no"@.len() == 2);
    if truthy.contains(needle) && occurs_in(needle, input) {
        let i = choose|i: int| 0 <= i < truthy.len() && truthy[i] == needle;
        assert(occurs_in(truthy[i], input));
    }
}

/// The mock says yes or no to what has no schema or no object, and says the object to
/// what has both.
pub proof fn the_mock_says_one_thing(
    truthy: Seq<Seq<char>>,
    input: Seq<char>,
    schema: bool,
    object: Option<Json>,
)
    ensures
        !schema || object is None ==> mock_text(truthy, input, schema, object) == "yes"@
            || mock_text(truthy, input, schema, object) == "no"@,
        !schema || object is None ==> mock_text(truthy, input, schema, object) == mock_text(
            truthy,
            input,
            false,
            None,
        ),
        schema ==> (object matches Some(o) ==> mock_text(truthy, input, schema, object)
            == json_written(o)),
{
}

}
