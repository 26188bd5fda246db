//! The `Produce` handler: each topic of the request is answered, per
//! partition, with success when the broker knows the topic and with
//! `UNKNOWN_TOPIC_OR_PARTITION` otherwise.

pub mod types;

use vstd::prelude::*;

use crate::cluster::topic::Topic;
use crate::name_map::NameMap;
use types::{produce_answer, ProduceRequest, ProduceResponse, ProduceTopicView, TopicResponse};

verus! {

/// Answers a `Produce` request against the topics the broker knows.
pub fn handle_produce_request(request: ProduceRequest, metadata: &NameMap<Topic>) -> (r: ProduceResponse)
    ensures
        r@ == request@.map_values(
            |t: ProduceTopicView| produce_answer(t, metadata@.contains_key(t.name)),
        ),
{
    let ghost target = request@.map_values(
        |t: ProduceTopicView| produce_answer(t, metadata@.contains_key(t.name)),
    );
    let mut topics: Vec<TopicResponse> = Vec::new();
    let mut i: usize = 0;
    while i < request.topics.len()
        invariant
            i <= request.topics@.len(),
            request@.len() == request.topics@.len(),
            target == request@.map_values(
                |t: ProduceTopicView| produce_answer(t, metadata@.contains_key(t.name)),
            ),
            topics@.map_values(|t: TopicResponse| t@) == target.take(i as int),
        decreases request.topics@.len() - i,
    {
        let ghost before = topics@.map_values(|t: TopicResponse| t@);
        let answer = TopicResponse::from_request(&request.topics[i], metadata);
        topics.push(answer);
        assert(request@[i as int] == request.topics@[i as int]@);
        assert(topics@.map_values(|t: TopicResponse| t@) =~= before.push(answer@));
        assert(topics@.map_values(|t: TopicResponse| t@) =~= target.take(i + 1));
        i = i + 1;
    }
    assert(target.take(i as int) =~= target);
    ProduceResponse::new(topics)
}

} // verus!
