//! The streaming record iterator: drains one chunk's raw records at a time,
//! routes each by channel, filters by topic, and dispatches recognized
//! schemas to the catalog's decoder. At most one chunk's records are ever
//! materialized at once.

use vstd::prelude::*;
use vstd::string::StringExecFns;
use crate::deserializer::Error;
use crate::msg::{decode_pointcloud2, pc2_corresponds, pc2_value_layout, Msg};
use crate::shape::{wire_of, Value};

verus! {

/// One raw record as handed over by the container adapter.
pub struct MessageDataOwned {
    pub conn_id: u32,
    pub time: u64,
    pub data: Vec<u8>,
}

/// One channel of the container: its id, topic name and schema name.
pub struct Connection {
    pub id: u32,
    pub topic: String,
    pub tp: String,
}

/// The first connection in the run with the given channel id.
pub open spec fn first_conn(s: Seq<Connection>, id: u32) -> Option<Connection>
    decreases s.len(),
{
    if s.len() == 0 {
        None
    } else if s[0].id == id {
        Some(s[0])
    } else {
        first_conn(s.drop_first(), id)
    }
}

/// The channel routing table: channel id to topic name and schema name,
/// built once when the container is opened and read-only afterward.
pub struct RoutingTable {
    pub entries: Vec<Connection>,
}

impl RoutingTable {
    /// What the table routes the given channel id to.
    pub open spec fn route(self, id: u32) -> Option<Connection> {
        first_conn(self.entries@, id)
    }

    pub fn new() -> (r: RoutingTable)
        ensures
            r.entries@.len() == 0,
    {
        RoutingTable { entries: Vec::new() }
    }

    /// Records one connection from the container's metadata.
    pub fn add(&mut self, id: u32, topic: String, tp: String)
        ensures
            final(self).entries@ == old(self).entries@.push(
                Connection { id, topic, tp },
            ),
    {
        self.entries.push(Connection { id, topic, tp });
    }

    /// Finds the first connection with this channel id, if any.
    pub fn find(&self, id: u32) -> (r: Option<usize>)
        ensures
            match r {
                Some(i) => i < self.entries@.len() && self.entries@[i as int].id == id
                    && self.route(id) == Some(self.entries@[i as int]),
                None => self.route(id) is None,
            },
    {
        let mut i: usize = 0;
        proof {
            assert(self.entries@.skip(0) =~= self.entries@);
        }
        while i < self.entries.len()
            invariant
                i <= self.entries@.len(),
                first_conn(self.entries@, id) == first_conn(self.entries@.skip(i as int), id),
            decreases self.entries@.len() - i as int,
        {
            proof {
                assert(self.entries@.skip(i as int).drop_first() =~= self.entries@.skip(
                    i as int + 1,
                ));
                assert(self.entries@.skip(i as int)[0] == self.entries@[i as int]);
            }
            if self.entries[i].id == id {
                return Some(i);
            }
            i = i + 1;
        }
        proof {
            assert(self.entries@.skip(i as int).len() == 0);
        }
        None
    }
}

/// The schema name the catalog recognizes for point clouds.
pub open spec fn pc2_schema_name() -> Seq<char> {
    "sensor_msgs/PointCloud2"@
}

/// Whether the iterator surfaces this record at all: records of unknown
/// channels are surfaced (as `Unknown`), records of known channels only when
/// no topic filter is active or their topic is in it.
pub open spec fn selected(t: RoutingTable, topics: Seq<Seq<char>>, rec: MessageDataOwned) -> bool {
    match t.route(rec.conn_id) {
        None => true,
        Some(c) => topics.len() == 0 || topics.contains(c.topic@),
    }
}

/// What the iterator must produce for a surfaced record: `Unknown` for an
/// unknown channel or schema; for the point-cloud schema, a record whose
/// wire encoding is exactly the payload, or a decode error only when no
/// point-cloud value encodes to the payload (within the budget type's
/// reach) - never a silent `Unknown` and never a spurious error.
pub open spec fn outcome_matches(
    t: RoutingTable,
    rec: MessageDataOwned,
    out: Result<Msg, Error>,
) -> bool {
    match t.route(rec.conn_id) {
        None => out == Ok::<Msg, Error>(Msg::Unknown),
        Some(c) => if c.tp@ != pc2_schema_name() {
            out == Ok::<Msg, Error>(Msg::Unknown)
        } else {
            match out {
                Ok(m) => m matches Msg::PointCloud2(p) && (exists|v: Value|
                    wire_of(v) == rec.data@ && pc2_corresponds(v, p)),
                Err(_) => !(rec.data@.len() <= u32::MAX && (exists|v: Value|
                    pc2_value_layout(v) && wire_of(v) == rec.data@)),
            }
        },
    }
}

/// The records of a run that the iterator surfaces, in their stored order:
/// what a full drain of the run yields, record for record.
pub open spec fn surfaced_records(
    t: RoutingTable,
    topics: Seq<Seq<char>>,
    recs: Seq<MessageDataOwned>,
) -> Seq<MessageDataOwned> {
    recs.filter(|r: MessageDataOwned| selected(t, topics, r))
}

/// Ordering across chunks: the records surfaced from a whole container are
/// the concatenation, chunk by chunk, of the records surfaced from each
/// chunk, so draining chunks one at a time in container order yields the
/// same records, in the same order, as the whole container would.
pub proof fn lemma_surfaced_records_concat(
    t: RoutingTable,
    topics: Seq<Seq<char>>,
    chunk1: Seq<MessageDataOwned>,
    chunk2: Seq<MessageDataOwned>,
)
    ensures
        surfaced_records(t, topics, chunk1 + chunk2) == surfaced_records(t, topics, chunk1)
            + surfaced_records(t, topics, chunk2),
{
    broadcast use vstd::seq_lib::group_seq_lib_default;

    Seq::filter_distributes_over_add(chunk1, chunk2, |r: MessageDataOwned| selected(t, topics, r));
}

/// A run with no selected record surfaces nothing.
pub proof fn lemma_surfaced_records_none(
    t: RoutingTable,
    topics: Seq<Seq<char>>,
    recs: Seq<MessageDataOwned>,
)
    requires
        forall|j: int| 0 <= j < recs.len() ==> !selected(t, topics, #[trigger] recs[j]),
    ensures
        surfaced_records(t, topics, recs) == Seq::<MessageDataOwned>::empty(),
    decreases recs.len(),
{
    reveal(Seq::filter);
    if recs.len() > 0 {
        assert(forall|j: int|
            0 <= j < recs.drop_last().len() ==> !selected(
                t,
                topics,
                #[trigger] recs.drop_last()[j],
            ));
        lemma_surfaced_records_none(t, topics, recs.drop_last());
    }
}

/// Splitting a run at its first selected record splits what it surfaces:
/// that record first, then whatever the rest surfaces.
pub proof fn lemma_surfaced_records_split(
    t: RoutingTable,
    topics: Seq<Seq<char>>,
    recs: Seq<MessageDataOwned>,
    k: int,
)
    requires
        0 <= k < recs.len(),
        forall|j: int| 0 <= j < k ==> !selected(t, topics, #[trigger] recs[j]),
        selected(t, topics, recs[k]),
    ensures
        surfaced_records(t, topics, recs) == seq![recs[k]] + surfaced_records(
            t,
            topics,
            recs.skip(k + 1),
        ),
{
    let pred = |r: MessageDataOwned| selected(t, topics, r);
    assert(recs =~= recs.take(k) + (seq![recs[k]] + recs.skip(k + 1)));
    Seq::filter_distributes_over_add(recs.take(k), seq![recs[k]] + recs.skip(k + 1), pred);
    Seq::filter_distributes_over_add(seq![recs[k]], recs.skip(k + 1), pred);
    assert(forall|j: int|
        0 <= j < recs.take(k).len() ==> !selected(t, topics, #[trigger] recs.take(k)[j]));
    lemma_surfaced_records_none(t, topics, recs.take(k));
    assert(seq![recs[k]].filter(pred) =~= seq![recs[k]]) by {
        reveal_with_fuel(Seq::filter, 2);
        assert(seq![recs[k]].drop_last() =~= Seq::<MessageDataOwned>::empty());
        assert(seq![recs[k]].last() == recs[k]);
    };
    assert(surfaced_records(t, topics, recs) =~= seq![recs[k]] + surfaced_records(
        t,
        topics,
        recs.skip(k + 1),
    ));
}

/// The streaming iterator's state: the routing table, the topic filter, and
/// the records of the one chunk currently being drained.
pub struct MessageIterator {
    topics: Vec<String>,
    table: RoutingTable,
    current_messages: Vec<MessageDataOwned>,
    next_idx: usize,
}

impl MessageIterator {
    pub closed spec fn wf(self) -> bool {
        self.next_idx <= self.current_messages@.len()
    }

    /// The records of the current chunk not yet consumed, in container order.
    pub closed spec fn pending(self) -> Seq<MessageDataOwned> {
        self.current_messages@.skip(self.next_idx as int)
    }

    pub closed spec fn spec_table(self) -> RoutingTable {
        self.table
    }

    pub closed spec fn spec_topics(self) -> Seq<Seq<char>> {
        self.topics@.map_values(|s: String| s@)
    }

    /// A fresh iterator over no records yet; topics is the allow-set, empty
    /// meaning no filtering.
    pub fn new(table: RoutingTable, topics: Vec<String>) -> (r: MessageIterator)
        ensures
            r.wf(),
            r.pending().len() == 0,
            r.spec_table() == table,
            r.spec_topics() == topics@.map_values(|s: String| s@),
    {
        let r = MessageIterator { topics, table, current_messages: Vec::new(), next_idx: 0 };
        proof {
            assert(r.pending() =~= Seq::<MessageDataOwned>::empty());
        }
        r
    }

    /// Takes over one chunk's records, replacing the drained batch: the peak
    /// number of materialized records is one chunk's worth.
    pub fn load_chunk(&mut self, records: Vec<MessageDataOwned>)
        requires
            old(self).wf(),
            old(self).pending().len() == 0,
        ensures
            final(self).wf(),
            final(self).pending() == records@,
            final(self).spec_table() == old(self).spec_table(),
            final(self).spec_topics() == old(self).spec_topics(),
    {
        self.current_messages = records;
        self.next_idx = 0;
        proof {
            assert(self.pending() =~= self.current_messages@);
        }
    }

    /// Surfaces the next record of the current chunk, in container order:
    /// `None` when the chunk is drained (every remaining record was filtered
    /// out), otherwise the outcome for the first selected record. Pending
    /// records never grow, so memory stays bounded by one chunk.
    pub fn next_message(&mut self) -> (r: Option<Result<Msg, Error>>)
        requires
            old(self).wf(),
        ensures
            final(self).wf(),
            final(self).spec_table() == old(self).spec_table(),
            final(self).spec_topics() == old(self).spec_topics(),
            final(self).pending().len() <= old(self).pending().len(),
            r is None ==> final(self).pending().len() == 0 && (forall|j: int|
                0 <= j < old(self).pending().len() ==> !selected(
                    old(self).spec_table(),
                    old(self).spec_topics(),
                    #[trigger] old(self).pending()[j],
                )) && surfaced_records(
                old(self).spec_table(),
                old(self).spec_topics(),
                old(self).pending(),
            ).len() == 0,
            r matches Some(out) ==> (exists|k: int|
                0 <= k < old(self).pending().len() && (forall|j: int|
                    0 <= j < k ==> !selected(
                        old(self).spec_table(),
                        old(self).spec_topics(),
                        #[trigger] old(self).pending()[j],
                    )) && selected(
                    old(self).spec_table(),
                    old(self).spec_topics(),
                    old(self).pending()[k],
                ) && outcome_matches(old(self).spec_table(), old(self).pending()[k], out)
                    && final(self).pending() == old(self).pending().skip(k + 1)
                    && surfaced_records(
                    old(self).spec_table(),
                    old(self).spec_topics(),
                    old(self).pending(),
                ) == seq![old(self).pending()[k]] + surfaced_records(
                    old(self).spec_table(),
                    old(self).spec_topics(),
                    final(self).pending(),
                )),
    {
        let ghost p0 = old(self).pending();
        loop
            invariant
                self.wf(),
                self.table == old(self).spec_table(),
                self.topics@ == old(self).topics@,
                self.current_messages@ == old(self).current_messages@,
                old(self).next_idx as int <= self.next_idx as int,
                self.next_idx <= self.current_messages@.len(),
                p0 == old(self).pending(),
                self.pending() =~= p0.skip(self.next_idx as int - old(self).next_idx as int),
                forall|j: int|
                    0 <= j < self.next_idx as int - old(self).next_idx as int ==> !selected(
                        old(self).spec_table(),
                        old(self).spec_topics(),
                        #[trigger] p0[j],
                    ),
            decreases self.current_messages@.len() - self.next_idx as int,
        {
            let ghost consumed = self.next_idx as int - old(self).next_idx as int;
            if self.next_idx == self.current_messages.len() {
                proof {
                    assert(self.pending().len() == 0);
                    assert(p0.skip(consumed).len() == 0);
                    assert(p0.skip(consumed).len() == p0.len() - consumed);
                    lemma_surfaced_records_none(old(self).spec_table(), old(self).spec_topics(), p0);
                }
                return None;
            }
            proof {
                assert(p0.skip(consumed)[0] == p0[consumed]);
                assert(self.pending()[0] == self.current_messages@[self.next_idx as int]);
                assert(p0.skip(consumed).skip(1) =~= p0.skip(consumed + 1));
            }
            let idx = self.next_idx;
            self.next_idx = idx + 1;
            let rec = &self.current_messages[idx];
            let ghost grec = p0[consumed];
            match self.table.find(rec.conn_id) {
                None => {
                    proof {
                        assert(selected(old(self).spec_table(), old(self).spec_topics(), grec));
                        assert(outcome_matches(
                            old(self).spec_table(),
                            grec,
                            Ok::<Msg, Error>(Msg::Unknown),
                        ));
                        assert(self.pending() =~= p0.skip(consumed + 1));
                        lemma_surfaced_records_split(
                            old(self).spec_table(),
                            old(self).spec_topics(),
                            p0,
                            consumed,
                        );
                    }
                    return Some(Ok(Msg::Unknown));
                },
                Some(ci) => {
                    let topic = &self.table.entries[ci].topic;
                    if self.topics.len() > 0 && !contains_string(&self.topics, topic) {
                        proof {
                            assert(!selected(old(self).spec_table(), old(self).spec_topics(), grec))
                                by {
                                assert(old(self).spec_topics().len() > 0);
                                assert(!old(self).spec_topics().contains(topic@)) by {
                                    assert forall|j: int|
                                        0 <= j < old(self).spec_topics().len() implies old(
                                        self,
                                    ).spec_topics()[j] != topic@ by {
                                        assert(old(self).spec_topics()[j] == self.topics@[j]@);
                                    };
                                };
                            };
                            assert(forall|j: int|
                                0 <= j < consumed + 1 ==> !selected(
                                    old(self).spec_table(),
                                    old(self).spec_topics(),
                                    #[trigger] p0[j],
                                ));
                        }
                    } else {
                        proof {
                            if old(self).spec_topics().len() > 0 {
                                assert(selected(
                                    old(self).spec_table(),
                                    old(self).spec_topics(),
                                    grec,
                                )) by {
                                    let j = choose|j: int|
                                        0 <= j < self.topics@.len() && self.topics@[j]@ == topic@;
                                    assert(old(self).spec_topics()[j] == topic@);
                                };
                            }
                            assert(self.pending() =~= p0.skip(consumed + 1));
                            lemma_surfaced_records_split(
                                old(self).spec_table(),
                                old(self).spec_topics(),
                                p0,
                                consumed,
                            );
                        }
                        let tp = &self.table.entries[ci].tp;
                        let pc2_name = String::from_str("sensor_msgs/PointCloud2");
                        if *tp == pc2_name {
                            let out = match decode_pointcloud2(rec.data.as_slice()) {
                                Ok(p) => Ok(Msg::PointCloud2(p)),
                                Err(e) => Err(e),
                            };
                            proof {
                                assert(outcome_matches(old(self).spec_table(), grec, out));
                            }
                            return Some(out);
                        } else {
                            proof {
                                assert(outcome_matches(
                                    old(self).spec_table(),
                                    grec,
                                    Ok::<Msg, Error>(Msg::Unknown),
                                ));
                            }
                            return Some(Ok(Msg::Unknown));
                        }
                    }
                },
            }
        }
    }
}

/// Whether the list holds a string with the same characters.
fn contains_string(list: &Vec<String>, s: &String) -> (r: bool)
    ensures
        r == (exists|j: int| 0 <= j < list@.len() && (#[trigger] list@[j])@ == s@),
{
    let mut i: usize = 0;
    while i < list.len()
        invariant
            i <= list@.len(),
            forall|j: int| 0 <= j < i as int ==> (#[trigger] list@[j])@ != s@,
        decreases list@.len() - i as int,
    {
        if s.eq(&list[i]) {
            return true;
        }
        i = i + 1;
    }
    false
}

} // verus!
