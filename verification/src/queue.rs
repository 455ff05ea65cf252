//! The queue: all topics, and the commands that move them.
use crate::command::{
    delivered_views, item_views, AppRequest, AppResponse, Delivered, ProduceItem,
};
use crate::model::{QueueView, TopicView};
use crate::names::NameMap;
use crate::queue_lemmas::{
    lemma_ample_for_all, lemma_queue_ack, lemma_queue_nack, lemma_queue_produce,
    lemma_queue_reclaim, lemma_room_for_prefix, lemma_same_outline, same_outline, step_keeps_wf,
};
use crate::snapshot::{lists_topics, restores_to, QueueData, TopicData};
use crate::topic::TopicState;
use crate::totals::{capped, lemma_total_of, total_of};
use crate::types::{ContentType, LeaseId, Offset, Priority, TopicId};
use vstd::prelude::*;

verus! {

/// All topics, and the next lease number.
#[derive(Debug)]
pub struct Queue {
    topics: NameMap<TopicState>,
    next_lease_id: LeaseId,
}

/// The values of the topics.
pub open spec fn topics_view(topics: Map<Seq<char>, TopicState>) -> Map<Seq<char>, TopicView> {
    topics.map_values(|t: TopicState| t@)
}

impl View for Queue {
    type V = QueueView;

    closed spec fn view(&self) -> QueueView {
        QueueView { topics: topics_view(self.topics@), next_lease_id: self.next_lease_id }
    }
}

impl Default for Queue {
    fn default() -> (r: Self)
        ensures
            r.wf(),
            r@ == QueueView::fresh(),
    {
        let r = Queue { topics: NameMap::new(), next_lease_id: 0 };
        proof {
            assert(r@ =~= QueueView::fresh());
        }
        r
    }
}

impl Queue {
    /// The topics are well-formed, each for itself.
    closed spec fn parts_wf(&self) -> bool {
        &&& self.topics.wf()
        &&& forall|t: Seq<char>| #[trigger] self.topics@.contains_key(t) ==> self.topics@[t].wf()
    }

    /// The queue is well-formed.
    pub closed spec fn wf(&self) -> bool {
        self.parts_wf() && self@.wf()
    }

    /// A well-formed queue has a well-formed value.
    pub proof fn lemma_wf(&self)
        requires
            self.wf(),
        ensures
            self@.wf(),
    {
    }

    /// The topic is taken out, to be put back; a new one where there is none.
    fn take_topic(&mut self, name: &str) -> (t: TopicState)
        requires
            old(self).wf(),
        ensures
            t.wf(),
            t@ == old(self)@.topic(name@),
            final(self).parts_wf(),
            forall|u: TopicView| #[trigger]
                final(self)@.with_topic(name@, u) == old(self)@.with_topic(name@, u),
    {
        let ghost start = self@;
        let r = match self.topics.remove(name) {
            Some(t) => t,
            None => TopicState::new(),
        };
        proof {
            assert forall|u: TopicView| #[trigger] self@.with_topic(name@, u) == start.with_topic(
                name@,
                u,
            ) by {
                assert(self@.with_topic(name@, u) =~= start.with_topic(name@, u));
            }
        }
        r
    }

    /// The topic is put back.
    fn put_topic(&mut self, name: String, t: TopicState)
        requires
            old(self).parts_wf(),
            t.wf(),
        ensures
            final(self).parts_wf(),
            final(self)@ == old(self)@.with_topic(name@, t@),
    {
        let ghost start = self@;
        let ghost view = t@;
        self.topics.insert(name, t);
        assert(self@ =~= start.with_topic(name@, view));
    }

    fn produce(&mut self, item: ProduceItem) -> (offset: Offset)
        requires
            old(self).wf(),
            old(self)@.room_to_produce(item@),
        ensures
            final(self).wf(),
            (final(self)@, offset) == old(self)@.produce(item@),
    {
        proof {
            lemma_queue_produce(self@, item@);
        }
        let name = item.topic.0.clone();
        let mut t = self.take_topic(name.as_str());
        let offset: u64 = t.produce(item);
        self.put_topic(name, t);
        offset
    }

    fn produce_all(&mut self, items: Vec<ProduceItem>) -> (offsets: Vec<Offset>)
        requires
            old(self).wf(),
            old(self)@.room_to_produce_all(item_views(items@)),
        ensures
            final(self).wf(),
            (final(self)@, offsets@) == old(self)@.produce_all(item_views(items@)),
    {
        let ghost start = self@;
        let ghost views = item_views(items@);
        let ghost all = items@;
        let mut offsets: Vec<Offset> = Vec::new();
        assert(views.take(0) =~= Seq::empty());
        for item in it: items
            invariant
                self.wf(),
                start.wf(),
                it.seq() == all,
                views == item_views(all),
                start.room_to_produce_all(views),
                (self@, offsets@) == start.produce_all(views.take(it.index())),
        {
            let ghost n = it.index();
            proof {
                lemma_room_for_prefix(start, views, n);
                assert(views.take(n + 1).drop_last() =~= views.take(n));
                assert(views.take(n + 1).last() == views[n]);
                assert(views[n] == item@);
            }
            let offset: u64 = self.produce(item);
            offsets.push(offset);
        }
        assert(views.take(views.len() as int) =~= views);
        offsets
    }

    fn poll(
        &mut self,
        topic: &str,
        group: &str,
        max: u32,
        visibility_timeout_ms: u64,
        ts_ms: u64,
    ) -> (items: Vec<Delivered>)
        requires
            old(self).wf(),
            old(self)@.room_to_poll(topic@, group@, max, visibility_timeout_ms, ts_ms),
        ensures
            final(self).parts_wf(),
            (final(self)@, delivered_views(items@)) == old(self)@.poll(
                topic@,
                group@,
                max,
                visibility_timeout_ms,
                ts_ms,
            ),
    {
        let ghost start = self@;
        let next_lease: u64 = self.next_lease_id;
        match self.topics.get_mut(topic) {
            Some(t) => {
                proof {
                    assert(start.topics.contains_key(topic@));
                    assert(start.topics[topic@] == t@);
                    assert(t@.leases_below(next_lease));
                }
                let items = t.poll(group, max, visibility_timeout_ms, ts_ms, next_lease);
                self.next_lease_id = next_lease + items.len() as u64;
                proof {
                    let goal = start.poll(topic@, group@, max, visibility_timeout_ms, ts_ms);
                    assert(self@.topics =~= goal.0.topics);
                    assert(self@ =~= goal.0);
                }
                items
            },
            None => {
                let items: Vec<Delivered> = Vec::new();
                assert(delivered_views(items@) =~= Seq::empty());
                items
            },
        }
    }

    fn ack(&mut self, topic: &str, group: &str, lease_id: LeaseId)
        requires
            old(self).wf(),
        ensures
            final(self).wf(),
            final(self)@ == old(self)@.ack(topic@, group@, lease_id),
    {
        let ghost start = self@;
        proof {
            lemma_queue_ack(start, topic@, group@, lease_id);
        }
        match self.topics.get_mut(topic) {
            Some(t) => {
                t.ack(group, lease_id);
            },
            None => {},
        }
        assert(self@ =~= start.ack(topic@, group@, lease_id));
    }

    fn nack(&mut self, topic: &str, group: &str, lease_id: LeaseId)
        requires
            old(self).wf(),
        ensures
            final(self).wf(),
            final(self)@ == old(self)@.nack(topic@, group@, lease_id),
    {
        let ghost start = self@;
        proof {
            lemma_queue_nack(start, topic@, group@, lease_id);
        }
        match self.topics.get_mut(topic) {
            Some(t) => {
                t.nack(group, lease_id);
            },
            None => {},
        }
        assert(self@ =~= start.nack(topic@, group@, lease_id));
    }

    fn ack_all(&mut self, topic: &str, group: &str, lease_ids: &Vec<LeaseId>)
        requires
            old(self).wf(),
        ensures
            final(self).wf(),
            final(self)@ == old(self)@.ack_all(topic@, group@, lease_ids@),
    {
        let ghost start = self@;
        let mut i: usize = 0;
        assert(lease_ids@.take(0) =~= Seq::empty());
        while i < lease_ids.len()
            invariant
                i <= lease_ids@.len(),
                self.wf(),
                self@ == start.ack_all(topic@, group@, lease_ids@.take(i as int)),
            decreases lease_ids@.len() - i,
        {
            proof {
                assert(lease_ids@.take(i + 1).drop_last() =~= lease_ids@.take(i as int));
            }
            self.ack(topic, group, lease_ids[i]);
            i += 1;
        }
        assert(lease_ids@.take(i as int) =~= lease_ids@);
    }

    fn nack_all(&mut self, topic: &str, group: &str, lease_ids: &Vec<LeaseId>)
        requires
            old(self).wf(),
        ensures
            final(self).wf(),
            final(self)@ == old(self)@.nack_all(topic@, group@, lease_ids@),
    {
        let ghost start = self@;
        let mut i: usize = 0;
        assert(lease_ids@.take(0) =~= Seq::empty());
        while i < lease_ids.len()
            invariant
                i <= lease_ids@.len(),
                self.wf(),
                self@ == start.nack_all(topic@, group@, lease_ids@.take(i as int)),
            decreases lease_ids@.len() - i,
        {
            proof {
                assert(lease_ids@.take(i + 1).drop_last() =~= lease_ids@.take(i as int));
            }
            self.nack(topic, group, lease_ids[i]);
            i += 1;
        }
        assert(lease_ids@.take(i as int) =~= lease_ids@);
    }

    fn commit(&mut self, topic: &str, group: &str, offset: Offset)
        requires
            old(self).wf(),
        ensures
            final(self).parts_wf(),
            final(self)@ == old(self)@.commit(topic@, group@, offset),
    {
        let ghost start = self@;
        match self.topics.get_mut(topic) {
            Some(t) => {
                t.commit(group, offset);
            },
            None => {},
        }
        assert(self@ =~= start.commit(topic@, group@, offset));
    }

    /// Applies a command. The outcome depends on the queue and the command alone, so
    /// every replica that applies the same commands holds the same queue.
    pub fn apply(&mut self, req: AppRequest) -> (resp: AppResponse)
        requires
            old(self).wf(),
            old(self)@.has_room(req),
        ensures
            final(self).wf(),
            (final(self)@, resp@) == old(self)@.step(req),
    {
        let ghost start = self@;
        proof {
            step_keeps_wf(start, req);
        }
        match req {
            AppRequest::CreateTopic { topic } => {
                let mut t = self.take_topic(topic.0.as_str());
                t.create();
                self.put_topic(topic.0, t);
                AppResponse::TopicCreated
            },
            AppRequest::DeleteTopic { topic } => {
                self.topics.remove(topic.0.as_str());
                assert(self@ =~= start.step(req).0);
                AppResponse::TopicDeleted
            },
            AppRequest::Produce {
                topic,
                priority,
                content_type,
                payload,
                producer_id,
                seq,
                ts_ms,
            } => {
                let offset: u64 = self.produce(
                    ProduceItem { topic, priority, content_type, payload, producer_id, seq, ts_ms },
                );
                AppResponse::Produced { offset }
            },
            AppRequest::ProduceMany { items } => {
                let offsets = self.produce_all(items);
                AppResponse::ProducedMany { offsets }
            },
            AppRequest::Poll { topic, group, max, visibility_timeout_ms, ts_ms } => {
                let items = self.poll(
                    topic.0.as_str(),
                    group.0.as_str(),
                    max,
                    visibility_timeout_ms,
                    ts_ms,
                );
                AppResponse::Polled { items }
            },
            AppRequest::Ack { topic, group, lease_id } => {
                self.ack(topic.0.as_str(), group.0.as_str(), lease_id);
                AppResponse::Acked
            },
            AppRequest::AckMany { topic, group, lease_ids } => {
                self.ack_all(topic.0.as_str(), group.0.as_str(), &lease_ids);
                AppResponse::Acked
            },
            AppRequest::Nack { topic, group, lease_id } => {
                self.nack(topic.0.as_str(), group.0.as_str(), lease_id);
                AppResponse::Nacked
            },
            AppRequest::NackMany { topic, group, lease_ids } => {
                self.nack_all(topic.0.as_str(), group.0.as_str(), &lease_ids);
                AppResponse::Nacked
            },
            AppRequest::CommitOffset { topic, group, offset } => {
                self.commit(topic.0.as_str(), group.0.as_str(), offset);
                AppResponse::Committed
            },
            AppRequest::SetRateLimit { topic, rate_milli_per_sec, burst } => {
                let mut t = self.take_topic(topic.0.as_str());
                t.set_rate_limit(rate_milli_per_sec, burst);
                self.put_topic(topic.0, t);
                AppResponse::RateLimitSet
            },
            AppRequest::SetRetention { topic, max_messages, max_age_ms } => {
                let mut t = self.take_topic(topic.0.as_str());
                t.set_retention(max_messages, max_age_ms);
                self.put_topic(topic.0, t);
                AppResponse::RetentionSet
            },
        }
    }

    /// Whether no counter that `req` moves runs over.
    pub fn can_apply(&self, req: &AppRequest) -> (r: bool)
        requires
            self.wf(),
        ensures
            r == self@.has_room(*req),
    {
        match req {
            AppRequest::Produce { topic, producer_id, seq, .. } => match self.topics.get(
                topic.0.as_str(),
            ) {
                Some(t) => t.can_produce(producer_id.as_str(), *seq),
                None => true,
            },
            AppRequest::ProduceMany { items } => self.has_offsets_to_spare(items)
                || self.can_produce_all(items),
            AppRequest::Poll { topic, group, max, visibility_timeout_ms, ts_ms } => {
                match self.topics.get(topic.0.as_str()) {
                    Some(t) => t.can_poll(
                        group.0.as_str(),
                        *max,
                        *visibility_timeout_ms,
                        *ts_ms,
                        self.next_lease_id,
                    ),
                    None => true,
                }
            },
            _ => true,
        }
    }

    /// Whether every topic of the items has offsets for as many messages as there are
    /// items. Then there is room for them, however many of them are resends.
    fn has_offsets_to_spare(&self, items: &Vec<ProduceItem>) -> (r: bool)
        requires
            self.wf(),
        ensures
            r == forall|i: int|
                0 <= i < items@.len() ==> self@.topic((#[trigger] items@[i]).topic@).next_offset
                    + items@.len() <= u64::MAX,
            r ==> self@.room_to_produce_all(item_views(items@)),
    {
        let n: usize = items.len();
        let mut i: usize = 0;
        while i < n
            invariant
                i <= n,
                n == items@.len(),
                self.wf(),
                forall|j: int|
                    0 <= j < i ==> self@.topic((#[trigger] items@[j]).topic@).next_offset
                        + items@.len() <= u64::MAX,
            decreases n - i,
        {
            let next: u64 = self.next_offset_of(items[i].topic.0.as_str());
            if n as u64 > u64::MAX - next {
                assert(self@.topic(items@[i as int].topic@).next_offset + items@.len()
                    > u64::MAX);
                return false;
            }
            i += 1;
        }
        proof {
            let views = item_views(items@);
            assert forall|i: int| 0 <= i < views.len() implies self@.topic(
                (#[trigger] views[i]).topic,
            ).next_offset + views.len() <= u64::MAX by {
                assert(views[i] == items@[i]@);
            }
            lemma_ample_for_all(self@, views, views.len());
        }
        true
    }

    /// Whether the offset counters have room for the items, one after the other. The items
    /// are tried out on outlines of their topics.
    fn can_produce_all(&self, items: &Vec<ProduceItem>) -> (r: bool)
        requires
            self.wf(),
        ensures
            r == self@.room_to_produce_all(item_views(items@)),
    {
        let ghost start = self@;
        let ghost views = item_views(items@);
        let mut outlines: NameMap<TopicState> = NameMap::new();
        let mut i: usize = 0;
        assert(views.take(0) =~= Seq::empty());
        while i < items.len()
            invariant
                i <= items@.len(),
                self.wf(),
                start == self@,
                views == item_views(items@),
                outlines.wf(),
                forall|n: Seq<char>| #[trigger]
                    outlines@.contains_key(n) ==> outlines@[n].wf() && same_outline(
                        outlines@[n]@,
                        start.produce_all(views.take(i as int)).0.topic(n),
                    ),
                forall|n: Seq<char>| #[trigger]
                    start.produce_all(views.take(i as int)).0.topic(n) == start.topic(n)
                        || outlines@.contains_key(n),
                start.room_to_produce_all(views.take(i as int)),
            decreases items@.len() - i,
        {
            let item = &items[i];
            let ghost mid = start.produce_all(views.take(i as int)).0;
            let ghost name = item.topic@;
            let ghost before = outlines@;
            assert(mid.topic(name) == start.topic(name) || before.contains_key(name));
            let mut t = match outlines.remove(item.topic.0.as_str()) {
                Some(t) => t,
                None => match self.topics.get(item.topic.0.as_str()) {
                    Some(t) => t.outline(),
                    None => TopicState::new(),
                },
            };
            let tried = ProduceItem {
                topic: TopicId(String::new()),
                priority: Priority(0),
                content_type: ContentType::Raw,
                payload: Vec::new(),
                producer_id: item.producer_id.clone(),
                seq: item.seq,
                ts_ms: 0,
            };
            proof {
                assert(same_outline(t@, mid.topic(name)));
                lemma_same_outline(t@, mid.topic(name), tried@, views[i as int]);
                assert(views.take(i + 1).drop_last() =~= views.take(i as int));
                assert(views.take(i + 1).last() == views[i as int]);
            }
            if !t.can_produce(item.producer_id.as_str(), item.seq) {
                proof {
                    if start.room_to_produce_all(views) {
                        lemma_room_for_prefix(start, views, i as int);
                    }
                }
                return false;
            }
            t.produce(tried);
            let ghost value = t;
            outlines.insert(item.topic.0.clone(), t);
            i += 1;
            proof {
                let now = start.produce_all(views.take(i as int)).0;
                assert(outlines@ =~= before.insert(name, value));
                assert forall|n: Seq<char>| #[trigger] outlines@.contains_key(n) implies outlines@[n].wf()
                    && same_outline(outlines@[n]@, now.topic(n)) by {
                    if n != name {
                        assert(before.contains_key(n));
                        assert(now.topic(n) == mid.topic(n));
                    }
                }
                assert forall|n: Seq<char>| #[trigger] now.topic(n) == start.topic(n)
                    || outlines@.contains_key(n) by {
                    if n != name {
                        assert(now.topic(n) == mid.topic(n));
                    }
                }
            }
        }
        assert(views.take(views.len() as int) =~= views);
        true
    }

    /// The offset that the next message of the topic will get.
    fn next_offset_of(&self, topic: &str) -> (r: Offset)
        requires
            self.wf(),
        ensures
            r == self@.topic(topic@).next_offset,
    {
        match self.topics.get(topic) {
            Some(t) => t.next_offset(),
            None => 0,
        }
    }

    /// The rate at which the topic hands out messages, and its burst, if it is limited.
    pub fn rate_config(&self, topic: &str) -> (r: Option<(u64, u32)>)
        requires
            self.wf(),
        ensures
            r == self@.rate_config(topic@),
    {
        match self.topics.get(topic) {
            Some(t) => {
                let (rate, burst) = t.rate();
                if rate > 0 {
                    Some((rate, burst))
                } else {
                    None
                }
            },
            None => None,
        }
    }

    /// Whether a poll at `now_ms` would find a message for the group.
    pub fn has_deliverable(&self, topic: &str, group: &str, now_ms: u64) -> (r: bool)
        requires
            self.wf(),
        ensures
            r == self@.has_deliverable(topic@, group@, now_ms),
    {
        match self.topics.get(topic) {
            Some(t) => t.has_deliverable(group, now_ms),
            None => false,
        }
    }

    /// How many topics, messages and leases there are.
    pub fn metrics(&self) -> (r: QueueMetrics)
        requires
            self.wf(),
        ensures
            r.topics == self@.topics.len(),
            r.messages == capped(self@.message_count()),
            r.in_flight == capped(self@.in_flight_count()),
    {
        let ghost f = |t: TopicView| t.log.len();
        let ghost h = |t: TopicView| t.in_flight_count();
        let ghost names = self.topics.names();
        proof {
            self.topics.lemma_names();
            assert(self@.topics.dom() =~= self.topics@.dom());
        }
        let topics: u64 = self.topics.len() as u64;
        let mut messages: u64 = 0;
        let mut in_flight: u64 = 0;
        let mut i: usize = 0;
        while i < self.topics.len()
            invariant
                i <= names.len(),
                names == self.topics.names(),
                self.parts_wf(),
                f == (|t: TopicView| t.log.len()),
                h == (|t: TopicView| t.in_flight_count()),
                messages == capped(total_of(self@.topics, f, names, i as int)),
                in_flight == capped(total_of(self@.topics, h, names, i as int)),
            decreases names.len() - i,
        {
            let t = self.topics.value_at(i);
            let len: usize = t.len();
            let leases: u64 = t.in_flight_len();
            proof {
                assert(f(self@.topics[names[i as int]]) == len);
                assert(leases == capped(h(self@.topics[names[i as int]])));
            }
            messages = messages.saturating_add(len as u64);
            in_flight = in_flight.saturating_add(leases);
            i += 1;
        }
        proof {
            lemma_total_of(self@.topics, f, names);
            lemma_total_of(self@.topics, h, names);
        }
        QueueMetrics { topics, messages, in_flight }
    }
}

impl Queue {
    /// The queue as plain data.
    pub fn snapshot(&self) -> (r: QueueData)
        requires
            self.wf(),
        ensures
            r.describes(self@),
    {
        let ghost names = self.topics.names();
        proof {
            self.topics.lemma_names();
        }
        let mut topics: Vec<(String, TopicData)> = Vec::new();
        let mut i: usize = 0;
        while i < self.topics.len()
            invariant
                i <= names.len(),
                names == self.topics.names(),
                names.to_set() == self@.topics.dom(),
                self.parts_wf(),
                topics@.len() == i,
                forall|j: int|
                    0 <= j < i ==> (#[trigger] topics@[j]).0@ == names[j]
                        && topics@[j].1.describes(self@.topics[names[j]]),
            decreases names.len() - i,
        {
            assert(names.to_set().contains(names[i as int]));
            let name = self.topics.name_at(i).clone();
            let data = self.topics.value_at(i).snapshot();
            topics.push((name, data));
            i += 1;
        }
        proof {
            assert forall|i: int| 0 <= i < topics@.len() implies self@.topics.contains_key(
                (#[trigger] topics@[i]).0@,
            ) && topics@[i].1.describes(self@.topics[topics@[i].0@]) by {
                assert(names.to_set().contains(names[i]));
            }
            assert forall|n: Seq<char>| #[trigger] self@.topics.contains_key(n) implies exists|
                i: int,
            |
                0 <= i < topics@.len() && (#[trigger] topics@[i]).0@ == n by {
                assert(names.to_set().contains(n));
                let j = choose|j: int| 0 <= j < names.len() && names[j] == n;
                assert(topics@[j].0@ == n);
            }
        }
        QueueData { topics, next_lease_id: self.next_lease_id }
    }

    /// The queue of plain data, less what every group has acked past; none where the data
    /// is that of no sound queue.
    pub fn restore(d: QueueData) -> (r: Option<Self>)
        ensures
            match r {
                Some(q) => q.wf() && restores_to(d, Some(q@)),
                None => restores_to(d, None),
            },
    {
        let ghost data = d;
        let ghost all = d.topics@;
        let next_lease_id: u64 = d.next_lease_id;
        let list = d.topics;
        let mut topics: NameMap<TopicState> = NameMap::new();
        let ghost mut found: Map<Seq<char>, TopicView> = Map::empty();
        for e in it: list
            invariant
                it.seq() == all,
                data == d,
                data.topics@ == all,
                data.next_lease_id == next_lease_id,
                topics.wf(),
                lists_topics(all.take(it.index()), found),
                found.dom() == topics@.dom(),
                forall|n: Seq<char>| #[trigger]
                    found.contains_key(n) ==> found[n].sound() && found[n].leases_below(
                        next_lease_id,
                    ) && topics@[n].wf() && topics@[n]@ == found[n].reclaim(),
        {
            let ghost k = it.index();
            assert(all[k] == e);
            let (name, topic) = e;
            match topics.get(name.as_str()) {
                Some(_) => {
                    proof {
                        assert forall|v: QueueView| #[trigger] data.describes(v) implies false by {
                            assert(found.contains_key(name@));
                            let j = choose|j: int|
                                0 <= j < k && (#[trigger] all.take(k)[j]).0@ == name@;
                            assert(all.take(k)[j] == all[j]);
                            assert(all[j].0@ == all[k].0@);
                        }
                    }
                    return None;
                },
                None => {},
            }
            let t = match TopicState::restore(topic, next_lease_id) {
                Some(t) => t,
                None => {
                    proof {
                        assert forall|v: QueueView| #[trigger] data.describes(v) implies !v.sound() by {
                            assert(all[k].1.describes(v.topics[all[k].0@]));
                            assert(v.topics.contains_key(all[k].0@));
                        }
                    }
                    return None;
                },
            };
            proof {
                let value = choose|v: TopicView| #[trigger]
                    all[k].1.describes(v) && v.sound() && v.leases_below(next_lease_id) && t@
                        == v.reclaim();
                assert(!found.contains_key(name@));
                let before = found;
                found = before.insert(name@, value);
                lemma_topics_listed(all, k, before, found, value);
            }
            let ghost before = topics@;
            topics.insert(name, t);
            proof {
                assert(found.dom() =~= topics@.dom());
                assert forall|n: Seq<char>| #[trigger] found.contains_key(n) implies found[n].sound()
                    && found[n].leases_below(next_lease_id) && topics@[n].wf() && topics@[n]@
                    == found[n].reclaim() by {
                    if n != name@ {
                        assert(before.dom().contains(n));
                    }
                }
            }
        }
        assert(all.take(all.len() as int) =~= all);
        let q = Queue { topics, next_lease_id };
        proof {
            let v = QueueView { topics: found, next_lease_id };
            q.topics.lemma_names();
            assert(data.describes(v));
            assert(v.sound());
            assert(q@.topics =~= v.reclaim().topics);
            lemma_queue_reclaim(v);
            assert forall|n: Seq<char>| #[trigger] q.topics@.contains_key(n) implies q.topics@[n].wf() by {
                assert(found.dom().contains(n));
            }
        }
        Some(q)
    }
}

/// One more topic that is not yet in the list.
proof fn lemma_topics_listed(
    list: Seq<(String, TopicData)>,
    k: int,
    before: Map<Seq<char>, TopicView>,
    after: Map<Seq<char>, TopicView>,
    value: TopicView,
)
    requires
        0 <= k < list.len(),
        lists_topics(list.take(k), before),
        !before.contains_key(list[k].0@),
        list[k].1.describes(value),
        after == before.insert(list[k].0@, value),
    ensures
        lists_topics(list.take(k + 1), after),
{
    let (a, b) = (list.take(k), list.take(k + 1));
    assert forall|i: int| 0 <= i < k implies before.contains_key((#[trigger] b[i]).0@)
        && b[i].1.describes(before[b[i].0@]) by {
        assert(a[i] == b[i]);
    }
    assert forall|i: int, j: int| 0 <= i < b.len() && 0 <= j < b.len() && (#[trigger] b[i]).0@ == (
    #[trigger] b[j]).0@ implies i == j by {
        if i < k && j < k {
            assert(a[i] == b[i] && a[j] == b[j]);
        }
    }
    assert forall|n: Seq<char>| #[trigger] after.contains_key(n) implies exists|i: int|
        0 <= i < b.len() && (#[trigger] b[i]).0@ == n by {
        if before.contains_key(n) {
            let i = choose|i: int| 0 <= i < a.len() && (#[trigger] a[i]).0@ == n;
            assert(b[i].0@ == n);
        } else {
            assert(b[k].0@ == n);
        }
    }
}

/// How many topics, messages and leases a queue has.
#[derive(Debug, Clone, Copy, PartialEq, Eq)]
pub struct QueueMetrics {
    pub topics: u64,
    pub messages: u64,
    pub in_flight: u64,
}

impl Default for QueueMetrics {
    fn default() -> (r: Self)
        ensures
            r == (QueueMetrics { topics: 0, messages: 0, in_flight: 0 }),
    {
        QueueMetrics { topics: 0, messages: 0, in_flight: 0 }
    }
}

} // verus!
