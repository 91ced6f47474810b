use vstd::prelude::*;

use crate::codec::line_of;
use crate::codec::serialize_prompt;
use crate::prompt::prompt_valid;
use crate::prompt::story_of;
use crate::prompt::violating_fields;
use crate::prompt::Prompt;
use crate::prompt::ValidationError;

verus! {

/// Validates a record and, on success, renders its story and its store
/// line; on failure reports every violating field.
pub fn generate(prompt: &Prompt) -> (r: Result<(String, String), ValidationError>)
    ensures
        r is Ok <==> prompt_valid(prompt@),
        r matches Ok(out) ==> out.0@ == story_of(prompt@) && out.1@ == line_of(prompt@),
        r matches Err(e) ==> e.fields@ == violating_fields(prompt@),
{
    match prompt.validate() {
        Err(e) => Err(e),
        Ok(()) => Ok((prompt.render(), serialize_prompt(prompt))),
    }
}

} // verus!
