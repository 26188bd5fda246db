//! The `DescribeTopicPartitions` handler.

pub mod types;

use vstd::prelude::*;

use crate::cluster::topic::Topic;
use crate::name_map::NameMap;
use crate::protocol_types::describe_topic_partitions::{describe_answers, resp_topic_views, RespTopic};
pub use types::{parse_describe_topic_partitions_request, DescribeTopicPartitionsRequest, DescribeTopicPartitionsResponse};

verus! {

/// Answers each requested name in order from the topics the broker knows;
/// a known topic is answered once and then taken out of `metadata`.
pub fn handle_topic_partitions_request(
    request: DescribeTopicPartitionsRequest,
    metadata: NameMap<Topic>,
) -> (r: DescribeTopicPartitionsResponse)
    ensures
        r@ == describe_answers(request@, metadata@),
{
    let ghost names = request@;
    let ghost target = describe_answers(names, metadata@);
    proof {
        use_type_invariant(&metadata);
    }
    let mut metadata = metadata;
    let mut topics: Vec<RespTopic> = Vec::new();
    let mut i: usize = 0;
    assert(names.skip(0) =~= names);
    assert(resp_topic_views(topics@) + target =~= target);
    while i < request.topics_array.len()
        invariant
            i <= names.len(),
            names == request@,
            names.len() == request.topics_array@.len(),
            metadata.well_formed(),
            target == resp_topic_views(topics@) + describe_answers(names.skip(i as int), metadata@),
        decreases names.len() - i,
    {
        let ghost before = resp_topic_views(topics@);
        let ghost known = metadata@;
        let name = request.topics_array[i].name.clone();
        assert(names.skip(i as int)[0] == name@);
        assert(names.skip(i as int).drop_first() =~= names.skip(i + 1));
        let answer = match metadata.remove(&name) {
            Some(topic) => RespTopic::found(name, &topic),
            None => RespTopic::not_found(name),
        };
        topics.push(answer);
        assert(resp_topic_views(topics@) =~= before.push(answer@));
        assert(before.push(answer@) + describe_answers(names.skip(i + 1), metadata@) =~= before + (seq![answer@]
            + describe_answers(names.skip(i + 1), metadata@)));
        i = i + 1;
    }
    assert(names.skip(i as int) =~= Seq::<Seq<char>>::empty());
    assert(resp_topic_views(topics@) + Seq::<crate::protocol_types::describe_topic_partitions::RespTopicView>::empty()
        =~= resp_topic_views(topics@));
    DescribeTopicPartitionsResponse::new(topics)
}

} // verus!
