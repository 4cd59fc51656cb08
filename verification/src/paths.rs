//! Where the rewritten form of an input file is written.

use vstd::prelude::*;

verus! {

/// The text of each component of a path.
pub open spec fn components_view(components: Seq<String>) -> Seq<Seq<char>> {
    components.map_values(|c: String| c@)
}

/// The output path for an input path given by its components: the input
/// must lie under `examples`, and its output lies at the same place under
/// `output`. `None` where the input does not start with `examples`.
pub open spec fn output_path_for(input: Seq<Seq<char>>) -> Option<Seq<Seq<char>>> {
    if input.len() > 0 && input[0] == "examples"@ {
        Some(seq!["output"@] + input.skip(1))
    } else {
        None
    }
}

/// The components of the output path for an input path, `None` where the
/// input does not lie under `examples`.
pub fn output_components(input: &Vec<String>) -> (r: Option<Vec<String>>)
    ensures
        match r {
            Some(out) => output_path_for(components_view(input@)) == Some(components_view(out@)),
            None => output_path_for(components_view(input@)) is None,
        },
{
    if input.len() == 0 {
        return None;
    }
    if input[0] != String::from_str("examples") {
        return None;
    }
    let mut out: Vec<String> = Vec::new();
    out.push(String::from_str("output"));
    let mut i: usize = 1;
    while i < input.len()
        invariant
            1 <= i <= input@.len(),
            out@.len() == i,
            out@[0]@ == "output"@,
            forall|j: int| 1 <= j < i ==> out@[j]@ == input@[j]@,
        decreases input@.len() - i,
    {
        out.push(input[i].clone());
        i = i + 1;
    }
    assert(components_view(out@) =~= seq!["output"@] + components_view(input@).skip(1));
    Some(out)
}

} // verus!
