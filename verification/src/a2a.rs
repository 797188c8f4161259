use vstd::prelude::*;

verus! {

use crate::ids::{is_v4, new_v4, uuid_text, uuid_to_string};

/// A JSON value of the serde_json crate, carried through unread.
#[verifier::external_type_specification]
#[verifier::external_body]
pub struct ExJsonValue(serde_json::Value);

/// An agent's public identity card for agent-to-agent discovery.
#[derive(Debug, Clone)]
pub struct AgentCard {
    pub name: String,
    pub description: String,
    pub endpoint: String,
    pub capabilities: Vec<String>,
}

impl AgentCard {
    pub fn new(name: &str, description: &str, endpoint: &str) -> (c: AgentCard)
        ensures
            c.name@ == name@,
            c.description@ == description@,
            c.endpoint@ == endpoint@,
            c.capabilities@.len() == 0,
    {
        AgentCard {
            name: name.to_owned(),
            description: description.to_owned(),
            endpoint: endpoint.to_owned(),
            capabilities: Vec::new(),
        }
    }

    /// Adds a capability at the end of the list.
    pub fn capability(self, cap: &str) -> (c: AgentCard)
        ensures
            c.name == self.name,
            c.description == self.description,
            c.endpoint == self.endpoint,
            c.capabilities@.len() == self.capabilities@.len() + 1,
            forall|i: int|
                0 <= i < self.capabilities@.len() ==> c.capabilities@[i] == self.capabilities@[i],
            c.capabilities@.last()@ == cap@,
    {
        let mut c = self;
        c.capabilities.push(cap.to_owned());
        c
    }
}

/// Whether the card lists `cap` among its capabilities.
pub open spec fn has_capability(card: AgentCard, cap: Seq<char>) -> bool {
    exists|i: int| 0 <= i < card.capabilities@.len() && card.capabilities@[i]@ == cap
}

/// Kind of an agent-to-agent message.
#[derive(Debug, Clone, Copy, PartialEq, Eq, Structural)]
pub enum MessageType {
    Request,
    Response,
    Notification,
    Error,
}

/// The wire name of each message kind.
pub open spec fn message_type_name(t: MessageType) -> Seq<char> {
    match t {
        MessageType::Request => "request"@,
        MessageType::Response => "response"@,
        MessageType::Notification => "notification"@,
        MessageType::Error => "error"@,
    }
}

impl MessageType {
    pub fn as_str(&self) -> (s: &'static str)
        ensures
            s@ == message_type_name(*self),
    {
        match self {
            MessageType::Request => "request",
            MessageType::Response => "response",
            MessageType::Notification => "notification",
            MessageType::Error => "error",
        }
    }
}

/// A message between agents; its content is JSON that the library only
/// carries.
#[derive(Debug)]
pub struct A2AMessage {
    pub id: String,
    pub from: String,
    pub to: String,
    pub message_type: MessageType,
    pub content: serde_json::Value,
}

impl A2AMessage {
    /// A message under a fresh random UUID, in its hyphenated form.
    pub fn new(from: &str, to: &str, message_type: MessageType, content: serde_json::Value) -> (m: A2AMessage)
        ensures
            m.from@ == from@,
            m.to@ == to@,
            m.message_type == message_type,
            m.content == content,
            exists|u: u128| is_v4(u) && m.id@ == uuid_text(u),
    {
        let u = new_v4();
        A2AMessage {
            id: uuid_to_string(u),
            from: from.to_owned(),
            to: to.to_owned(),
            message_type,
            content,
        }
    }
}

/// Index of the first card named `name`, if any.
pub open spec fn first_card_named(cards: Seq<AgentCard>, name: Seq<char>) -> Option<int> {
    if exists|i: int| 0 <= i < cards.len() && cards[i].name@ == name {
        Some(
            choose|i: int|
                0 <= i < cards.len() && cards[i].name@ == name && forall|j: int|
                    0 <= j < i ==> cards[j].name@ != name,
        )
    } else {
        None
    }
}

/// Keeps the cards that are not named `name`.
pub open spec fn not_named(name: Seq<char>) -> spec_fn(AgentCard) -> bool {
    |c: AgentCard| c.name@ != name
}

/// Keeps the cards that offer `cap`.
pub open spec fn offers(cap: Seq<char>) -> spec_fn(AgentCard) -> bool {
    |c: AgentCard| has_capability(c, cap)
}

/// The cards after registering `card`: it replaces the first card with the
/// same name, or joins at the end.
pub open spec fn register_card(cards: Seq<AgentCard>, card: AgentCard) -> Seq<AgentCard> {
    match first_card_named(cards, card.name@) {
        Some(i) => cards.update(i, card),
        None => cards.push(card),
    }
}

/// No two cards share a name.
pub open spec fn unique_names(cards: Seq<AgentCard>) -> bool {
    forall|i: int, j: int|
        0 <= i < j < cards.len() ==> (#[trigger] cards[i]).name@ != (#[trigger] cards[j]).name@
}

/// Registry of agent cards, discoverable by name and by capability.
#[derive(Debug)]
pub struct A2ARegistry {
    agents: Vec<AgentCard>,
}

impl A2ARegistry {
    pub closed spec fn cards(&self) -> Seq<AgentCard> {
        self.agents@
    }

    pub fn new() -> (r: A2ARegistry)
        ensures
            r.cards() == Seq::<AgentCard>::empty(),
    {
        A2ARegistry { agents: Vec::new() }
    }

    fn position(&self, name: &str) -> (r: Option<usize>)
        ensures
            match first_card_named(self.cards(), name@) {
                Some(i) => r is Some && r.unwrap() as int == i,
                None => r is None,
            },
            r matches Some(k) ==> k < self.cards().len() && self.cards()[k as int].name@ == name@,
    {
        let key = name.to_owned();
        let mut i: usize = 0;
        while i < self.agents.len()
            invariant
                i <= self.agents.len(),
                key@ == name@,
                forall|j: int| 0 <= j < i ==> self.agents@[j].name@ != name@,
            decreases self.agents.len() - i,
        {
            if self.agents[i].name == key {
                proof {
                    let k = i as int;
                    assert(0 <= k < self.cards().len() && self.cards()[k].name@ == name@);
                    let c = first_card_named(self.cards(), name@).unwrap();
                    if c < k {
                        assert(self.agents@[c].name@ != name@);
                    }
                }
                return Some(i);
            }
            i = i + 1;
        }
        None
    }

    /// Registers a card; a card with the same name is replaced in place.
    pub fn register(&mut self, card: AgentCard)
        ensures
            final(self).cards() == register_card(old(self).cards(), card),
    {
        match self.position(card.name.as_str()) {
            Some(i) => {
                self.agents.set(i, card);
            },
            None => {
                self.agents.push(card);
            },
        }
    }

    /// Removes every card with this name.
    pub fn unregister(&mut self, name: &str)
        ensures
            final(self).cards() == old(self).cards().filter(not_named(name@)),
    {
        let key = name.to_owned();
        let mut kept: Vec<AgentCard> = Vec::new();
        let mut rest: Vec<AgentCard> = Vec::new();
        std::mem::swap(&mut rest, &mut self.agents);
        let ghost all = rest@;
        let ghost mut done: int = 0;
        while rest.len() > 0
            invariant
                0 <= done <= all.len(),
                rest@ == all.subrange(done, all.len() as int),
                key@ == name@,
                kept@ == all.subrange(0, done).filter(not_named(name@)),
            decreases rest.len(),
        {
            let card = rest.remove(0);
            let ghost before = kept@;
            proof {
                assert(card == all[done]);
            }
            if !(card.name == key) {
                kept.push(card);
            }
            proof {
                reveal(Seq::filter);
                let p = not_named(name@);
                let next = all.subrange(0, done + 1);
                assert(next.drop_last() =~= all.subrange(0, done));
                assert(next.last() == all[done]);
                assert(next.filter(p) == (if p(next.last()) {
                    next.drop_last().filter(p).push(next.last())
                } else {
                    next.drop_last().filter(p)
                }));
                done = done + 1;
                assert(rest@ =~= all.subrange(done, all.len() as int));
            }
        }
        assert(all.subrange(0, all.len() as int) =~= all);
        self.agents = kept;
    }

    pub fn agents(&self) -> (a: &[AgentCard])
        ensures
            a@ == self.cards(),
    {
        self.agents.as_slice()
    }

    /// The first card with this name.
    pub fn find(&self, name: &str) -> (c: Option<&AgentCard>)
        ensures
            match first_card_named(self.cards(), name@) {
                Some(i) => c == Some(&self.cards()[i]),
                None => c is None,
            },
    {
        match self.position(name) {
            Some(i) => Some(&self.agents[i]),
            None => None,
        }
    }

    /// The cards that offer `capability`, in registration order.
    pub fn discover(&self, capability: &str) -> (found: Vec<&AgentCard>)
        ensures
            found@.len() == self.cards().filter(offers(capability@)).len(),
            forall|i: int|
                0 <= i < found@.len() ==> *found@[i] == self.cards().filter(offers(capability@))[i],
    {
        let key = capability.to_owned();
        let mut found: Vec<&AgentCard> = Vec::new();
        let ghost all = self.agents@;
        let mut i: usize = 0;
        while i < self.agents.len()
            invariant
                i <= self.agents.len(),
                all == self.agents@,
                key@ == capability@,
                found@.len() == all.subrange(0, i as int).filter(offers(capability@)).len(),
                forall|k: int|
                    0 <= k < found@.len() ==> *found@[k] == all.subrange(0, i as int).filter(
                        offers(capability@),
                    )[k],
            decreases self.agents.len() - i,
        {
            let card = &self.agents[i];
            let mut has = false;
            let mut j: usize = 0;
            while j < card.capabilities.len()
                invariant
                    j <= card.capabilities.len(),
                    key@ == capability@,
                    has == exists|k: int| 0 <= k < j && card.capabilities@[k]@ == capability@,
                decreases card.capabilities.len() - j,
            {
                if card.capabilities[j] == key {
                    has = true;
                }
                j = j + 1;
            }
            let ghost before = found@;
            if has {
                found.push(card);
            }
            proof {
                reveal(Seq::filter);
                let p = offers(capability@);
                let next = all.subrange(0, i + 1);
                assert(next.drop_last() =~= all.subrange(0, i as int));
                assert(next.last() == all[i as int]);
                assert(has == has_capability(*card, capability@));
                assert(next.filter(p) == (if p(next.last()) {
                    next.drop_last().filter(p).push(next.last())
                } else {
                    next.drop_last().filter(p)
                }));
            }
            i = i + 1;
        }
        assert(all.subrange(0, all.len() as int) =~= all);
        found
    }
}

/// Registering never creates a second card with a name already taken.
pub proof fn lemma_register_keeps_names_unique(cards: Seq<AgentCard>, card: AgentCard)
    requires
        unique_names(cards),
    ensures
        unique_names(register_card(cards, card)),
        first_card_named(register_card(cards, card), card.name@).is_some(),
        register_card(cards, card)[first_card_named(register_card(cards, card), card.name@).unwrap()]
            == card,
{
    let r = register_card(cards, card);
    match first_card_named(cards, card.name@) {
        Some(p) => {
            assert forall|i: int, j: int| 0 <= i < j < r.len() implies (#[trigger] r[i]).name@ != (
            #[trigger] r[j]).name@ by {
                if i == p {
                    assert(cards[j].name@ != cards[p].name@);
                } else if j == p {
                    assert(cards[i].name@ != cards[p].name@);
                } else {
                    assert(cards[i].name@ != cards[j].name@);
                }
            }
            assert(r[p].name@ == card.name@);
            let q = first_card_named(r, card.name@).unwrap();
            if q != p {
                if q < p {
                    assert(r[q].name@ != r[p].name@);
                } else {
                    assert(r[p].name@ != r[q].name@);
                }
            }
        },
        None => {
            assert forall|i: int, j: int| 0 <= i < j < r.len() implies (#[trigger] r[i]).name@ != (
            #[trigger] r[j]).name@ by {
                if j == cards.len() {
                    assert(r[i] == cards[i]);
                } else {
                    assert(cards[i].name@ != cards[j].name@);
                }
            }
            let n = cards.len() as int;
            assert(r[n].name@ == card.name@);
            let q = first_card_named(r, card.name@).unwrap();
            if q < n {
                assert(r[q] == cards[q]);
            }
        },
    }
}

/// Once a name is unregistered, no card answers to it.
pub proof fn lemma_unregister_forgets(cards: Seq<AgentCard>, name: Seq<char>)
    ensures
        first_card_named(cards.filter(not_named(name)), name) is None,
{
    let f = cards.filter(not_named(name));
    assert forall|i: int| 0 <= i < f.len() implies f[i].name@ != name by {
        cards.lemma_filter_pred(not_named(name), i);
    }
}

proof fn lemma_filter_keeps_all(cards: Seq<AgentCard>, name: Seq<char>)
    requires
        forall|i: int| 0 <= i < cards.len() ==> (#[trigger] cards[i]).name@ != name,
    ensures
        cards.filter(not_named(name)) == cards,
    decreases cards.len(),
{
    reveal(Seq::filter);
    if cards.len() > 0 {
        lemma_filter_keeps_all(cards.drop_last(), name);
        assert(cards.drop_last().push(cards.last()) =~= cards);
    }
}

/// Unregistering a name that was free before a registration restores the
/// cards as they were.
pub proof fn lemma_unregister_undoes_register(cards: Seq<AgentCard>, card: AgentCard)
    requires
        first_card_named(cards, card.name@) is None,
    ensures
        register_card(cards, card).filter(not_named(card.name@)) == cards,
{
    reveal(Seq::filter);
    let r = register_card(cards, card);
    assert(r == cards.push(card));
    assert(r.drop_last() =~= cards);
    lemma_filter_keeps_all(cards, card.name@);
}

} // verus!
