use vstd::prelude::*;
use crate::chunk::{generated_view, Chunk, ChunkView};
use crate::world::answers;

verus! {

/// What the generation worker does with one request: generates the chunk
/// anchored at each origin of `request` under `seed`, keeping the order of
/// the request.
pub fn generate_batch(request: &Vec<(i32, i32)>, seed: u32) -> (r: Vec<Chunk>)
    ensures
        r@.len() == request@.len(),
        forall|i: int|
            #![trigger r@[i]]
            0 <= i < r@.len() ==> r@[i]@ == generated_view(request@[i].0, request@[i].1, seed)
                && r@[i].wf(),
{
    let mut out: Vec<Chunk> = Vec::new();
    let mut i: usize = 0;
    while i < request.len()
        invariant
            i <= request.len(),
            out@.len() == i,
            forall|j: int|
                #![trigger out@[j]]
                0 <= j < i ==> out@[j]@ == generated_view(request@[j].0, request@[j].1, seed)
                    && out@[j].wf(),
        decreases request.len() - i,
    {
        let (x, y) = request[i];
        out.push(Chunk::random(x, y, seed));
        i = i + 1;
    }
    out
}

/// The worker's reply to a request answers that request entry by entry: the
/// chunk at each position is the one generated for the coordinate at that
/// position, so a world that sent the request installs it.
pub proof fn lemma_batch_answers(request: Seq<(i32, i32)>, response: Seq<ChunkView>, seed: u32)
    requires
        response.len() == request.len(),
        forall|i: int|
            #![trigger response[i]]
            0 <= i < response.len() ==> response[i] == generated_view(request[i].0, request[i].1, seed),
    ensures
        answers(request, response),
{
}

} // verus!
