//! The registry of named commands.
//!
//! Every name is registered at most once. The registry keeps its commands
//! sorted by name, in the byte order of their UTF-8 text, which is the order
//! of `str`'s comparison. Running a handler is left to the caller, which
//! takes it from `handler` and reports how the run went to `execute`.
use vstd::prelude::*;
use vstd::utf8::*;
use crate::error::LunaError;
use crate::events::{lemma_filter_all, lemma_filter_all_but_one};
use crate::types::{CommandId, CommandInfo};

verus! {

broadcast use {vstd::utf8::encode_utf8_valid_utf8, vstd::utf8::encode_utf8_decode_utf8};

/// `a` comes strictly before `b` in lexicographic byte order.
pub open spec fn bytes_lt(a: Seq<u8>, b: Seq<u8>) -> bool
    decreases a.len(),
{
    if a.len() == 0 {
        b.len() > 0
    } else if b.len() == 0 {
        false
    } else if a[0] != b[0] {
        a[0] < b[0]
    } else {
        bytes_lt(a.drop_first(), b.drop_first())
    }
}

/// `a` comes strictly before `b` in the order of `str`: the byte order of
/// their UTF-8 encodings.
pub open spec fn name_lt(a: Seq<char>, b: Seq<char>) -> bool {
    bytes_lt(encode_utf8(a), encode_utf8(b))
}

pub proof fn lemma_bytes_lt_irreflexive(a: Seq<u8>)
    ensures
        !bytes_lt(a, a),
    decreases a.len(),
{
    if a.len() > 0 {
        lemma_bytes_lt_irreflexive(a.drop_first());
    }
}

pub proof fn lemma_bytes_lt_transitive(a: Seq<u8>, b: Seq<u8>, c: Seq<u8>)
    requires
        bytes_lt(a, b),
        bytes_lt(b, c),
    ensures
        bytes_lt(a, c),
    decreases a.len(),
{
    if a.len() > 0 && b.len() > 0 && c.len() > 0 && a[0] == b[0] && b[0] == c[0] {
        lemma_bytes_lt_transitive(a.drop_first(), b.drop_first(), c.drop_first());
    }
}

pub proof fn lemma_bytes_lt_total(a: Seq<u8>, b: Seq<u8>)
    requires
        a != b,
    ensures
        bytes_lt(a, b) || bytes_lt(b, a),
    decreases a.len(),
{
    if a.len() > 0 && b.len() > 0 && a[0] == b[0] {
        if a.drop_first() == b.drop_first() {
            assert(a =~= seq![a[0]] + a.drop_first());
            assert(b =~= seq![b[0]] + b.drop_first());
        }
        lemma_bytes_lt_total(a.drop_first(), b.drop_first());
    } else if a.len() == 0 && b.len() == 0 {
        assert(a =~= b);
    }
}

/// `str`'s `<` on the two texts.
pub fn str_less(a: &str, b: &str) -> (r: bool)
    ensures
        r == name_lt(a@, b@),
{
    let x = a.as_bytes();
    let y = b.as_bytes();
    let ghost xs = encode_utf8(a@);
    let ghost ys = encode_utf8(b@);
    let mut i: usize = 0;
    proof {
        assert(xs.skip(0) =~= xs);
        assert(ys.skip(0) =~= ys);
    }
    while i < x.len() && i < y.len()
        invariant
            xs == encode_utf8(a@),
            ys == encode_utf8(b@),
            x@ == xs,
            y@ == ys,
            i <= xs.len(),
            i <= ys.len(),
            bytes_lt(xs, ys) == bytes_lt(xs.skip(i as int), ys.skip(i as int)),
        decreases xs.len() - i,
    {
        let xi = x[i];
        let yi = y[i];
        if xi != yi {
            proof {
                assert(xs.skip(i as int)[0] == xs[i as int]);
                assert(ys.skip(i as int)[0] == ys[i as int]);
            }
            return xi < yi;
        }
        proof {
            assert(xs.skip(i as int).drop_first() =~= xs.skip(i + 1));
            assert(ys.skip(i as int).drop_first() =~= ys.skip(i + 1));
        }
        i = i + 1;
    }
    i == x.len() && i < y.len()
}

/// A registered command: its id, name, description and handler.
pub struct CommandEntry<H> {
    pub id: CommandId,
    pub name: String,
    pub description: String,
    pub handler: H,
}

/// A registered command, with its strings taken as text.
pub struct CommandRecord<H> {
    pub id: CommandId,
    pub name: Seq<char>,
    pub description: Seq<char>,
    pub handler: H,
}

/// The registered commands, sorted by name, and the next id to hand out.
pub struct RegistryState<H> {
    pub commands: Seq<CommandRecord<H>>,
    pub next_id: u64,
}

pub open spec fn record_of<H>(e: CommandEntry<H>) -> CommandRecord<H> {
    CommandRecord { id: e.id, name: e.name@, description: e.description@, handler: e.handler }
}

/// The commands are sorted strictly by name, so no name occurs twice; ids
/// are distinct, start at 1 and stay below the next id to hand out.
pub open spec fn registry_wf<H>(s: RegistryState<H>) -> bool {
    &&& s.next_id >= 1
    &&& forall|i: int, j: int|
        0 <= i < j < s.commands.len() ==> name_lt(
            (#[trigger] s.commands[i]).name,
            (#[trigger] s.commands[j]).name,
        )
    &&& forall|i: int, j: int|
        0 <= i < j < s.commands.len() ==> (#[trigger] s.commands[i]).id != (
        #[trigger] s.commands[j]).id
    &&& forall|i: int|
        0 <= i < s.commands.len() ==> 1 <= (#[trigger] s.commands[i]).id.0 < s.next_id
}

/// Some command is registered under `name`.
pub open spec fn registered<H>(cmds: Seq<CommandRecord<H>>, name: Seq<char>) -> bool {
    exists|i: int| 0 <= i < cmds.len() && (#[trigger] cmds[i]).name == name
}

/// Keeps the commands that are not named `name`.
pub open spec fn not_named<H>(name: Seq<char>) -> spec_fn(CommandRecord<H>) -> bool {
    |c: CommandRecord<H>| c.name != name
}

/// The message of the error for registering `name` a second time.
pub open spec fn duplicate_reason(name: Seq<char>) -> Seq<char> {
    "comando '"@ + name
        + "' já está registrado; cancele o registro anterior antes de registrar novamente"@
}

/// The commands of the library, with handlers of type `H`.
pub struct CommandRegistry<H> {
    commands: Vec<CommandEntry<H>>,
    next_id: u64,
}

impl<H> View for CommandRegistry<H> {
    type V = RegistryState<H>;

    closed spec fn view(&self) -> RegistryState<H> {
        RegistryState {
            commands: Seq::new(self.commands@.len(), |i: int| record_of(self.commands@[i])),
            next_id: self.next_id,
        }
    }
}

impl<H> CommandRegistry<H> {
    pub open spec fn wf(&self) -> bool {
        registry_wf(self@)
    }

    /// The id the next registered command gets.
    pub fn next_id(&self) -> (n: u64)
        ensures
            n == self@.next_id,
    {
        self.next_id
    }

    /// An empty registry; the first id handed out is 1.
    pub fn new() -> (r: Self)
        ensures
            r.wf(),
            r@.commands == Seq::<CommandRecord<H>>::empty(),
            r@.next_id == 1,
    {
        let r = CommandRegistry { commands: Vec::new(), next_id: 1 };
        proof {
            assert(r@.commands =~= Seq::<CommandRecord<H>>::empty());
        }
        r
    }

    /// The index of the first command whose name does not come before `name`.
    fn lower_bound(&self, name: &str) -> (k: usize)
        requires
            self.wf(),
        ensures
            k <= self@.commands.len(),
            forall|i: int| 0 <= i < k ==> name_lt((#[trigger] self@.commands[i]).name, name@),
            k < self@.commands.len() ==> !name_lt(self@.commands[k as int].name, name@),
    {
        let n = self.commands.len();
        let mut k: usize = 0;
        while k < n
            invariant
                n == self@.commands.len(),
                k <= n,
                forall|i: int| 0 <= i < k ==> name_lt((#[trigger] self@.commands[i]).name, name@),
            decreases n - k,
        {
            if !str_less(self.commands[k].name.as_str(), name) {
                return k;
            }
            k = k + 1;
        }
        k
    }

    /// The index of the command named `name`, if there is one.
    fn find(&self, name: &str) -> (r: Option<usize>)
        requires
            self.wf(),
        ensures
            r is None <==> !registered(self@.commands, name@),
            r matches Some(k) ==> k < self@.commands.len() && self@.commands[k as int].name
                == name@,
    {
        let k = self.lower_bound(name);
        if k < self.commands.len() {
            let key = name.to_owned();
            if self.commands[k].name == key {
                return Some(k);
            }
        }
        proof {
            let cmds = self@.commands;
            if registered(cmds, name@) {
                let j = choose|j: int| 0 <= j < cmds.len() && cmds[j].name == name@;
                lemma_bytes_lt_irreflexive(encode_utf8(name@));
                assert(j >= k);
                if j > k {
                    assert(name_lt(cmds[k as int].name, cmds[j].name));
                    if cmds[k as int].name != name@ {
                        assert(encode_utf8(cmds[k as int].name) != encode_utf8(name@)) by {
                            assert(decode_utf8(encode_utf8(cmds[k as int].name)) == cmds[k as int].name);
                            assert(decode_utf8(encode_utf8(name@)) == name@);
                        }
                        lemma_bytes_lt_total(encode_utf8(cmds[k as int].name), encode_utf8(name@));
                    }
                }
            }
        }
        None
    }

    /// Registers `handler` under `name`. Fails, changing nothing, where the
    /// name is taken already.
    pub fn register(&mut self, name: &str, description: &str, handler: H) -> (r: Result<
        CommandId,
        LunaError,
    >)
        requires
            old(self).wf(),
            old(self)@.next_id < u64::MAX || registered(old(self)@.commands, name@),
        ensures
            final(self).wf(),
            r is Err <==> registered(old(self)@.commands, name@),
            r is Err ==> final(self)@ == old(self)@,
            r matches Err(e) ==> e matches LunaError::Internal(m) && m@ == duplicate_reason(name@),
            r matches Ok(id) ==> id == CommandId(old(self)@.next_id) && final(self)@.next_id
                == old(self)@.next_id + 1 && exists|k: int|
                0 <= k <= old(self)@.commands.len() && final(self)@.commands == old(
                    self,
                )@.commands.insert(
                    k,
                    CommandRecord { id, name: name@, description: description@, handler },
                ),
    {
        match self.find(name) {
            Some(_) => {
                let mut m = "comando '".to_owned();
                m.append(name);
                m.append(
                    "' já está registrado; cancele o registro anterior antes de registrar novamente",
                );
                return Err(LunaError::Internal(m));
            },
            None => {},
        }
        let ghost cmds = self@.commands;
        let k = self.lower_bound(name);
        let id = CommandId(self.next_id);
        self.next_id = self.next_id + 1;
        let entry = CommandEntry {
            id,
            name: name.to_owned(),
            description: description.to_owned(),
            handler,
        };
        let ghost rec = record_of(entry);
        self.commands.insert(k, entry);
        proof {
            let nc = self@.commands;
            assert(nc =~= cmds.insert(k as int, rec));
            if k < cmds.len() {
                let a = encode_utf8(cmds[k as int].name);
                let b = encode_utf8(name@);
                assert(cmds[k as int].name != name@);
                assert(a != b) by {
                    assert(decode_utf8(a) == cmds[k as int].name);
                    assert(decode_utf8(b) == name@);
                }
                lemma_bytes_lt_total(a, b);
            }
            assert forall|i: int, j: int| 0 <= i < j < nc.len() implies name_lt(
                (#[trigger] nc[i]).name,
                (#[trigger] nc[j]).name,
            ) by {
                if j < k {
                } else if j == k {
                } else if i < k {
                    if j - 1 > k {
                        lemma_bytes_lt_transitive(
                            encode_utf8(name@),
                            encode_utf8(cmds[k as int].name),
                            encode_utf8(cmds[j - 1].name),
                        );
                    }
                    assert(nc[j] == cmds[j - 1]);
                    assert(nc[i] == cmds[i]);
                    lemma_bytes_lt_transitive(
                        encode_utf8(nc[i].name),
                        encode_utf8(name@),
                        encode_utf8(nc[j].name),
                    );
                } else if i == k {
                    if j - 1 > k {
                        lemma_bytes_lt_transitive(
                            encode_utf8(name@),
                            encode_utf8(cmds[k as int].name),
                            encode_utf8(cmds[j - 1].name),
                        );
                    }
                } else {
                    assert(nc[i] == cmds[i - 1]);
                    assert(nc[j] == cmds[j - 1]);
                }
            }
            assert forall|i: int, j: int| 0 <= i < j < nc.len() implies (#[trigger] nc[i]).id != (
            #[trigger] nc[j]).id by {
                if i == k {
                    assert(nc[j] == cmds[j - 1]);
                } else if j == k {
                    assert(nc[i] == cmds[i]);
                } else {
                    let i2 = if i < k { i } else { i - 1 };
                    let j2 = if j < k { j } else { j - 1 };
                    assert(nc[i] == cmds[i2]);
                    assert(nc[j] == cmds[j2]);
                }
            }
            assert forall|i: int| 0 <= i < nc.len() implies 1 <= (#[trigger] nc[i]).id.0
                < self.next_id by {
                if i < k {
                    assert(nc[i] == cmds[i]);
                } else if i > k {
                    assert(nc[i] == cmds[i - 1]);
                }
            }
        }
        Ok(id)
    }

    /// Removes the command named `name`, if there is one; the others keep
    /// their order.
    pub fn unregister(&mut self, name: &str)
        requires
            old(self).wf(),
        ensures
            final(self).wf(),
            final(self)@.next_id == old(self)@.next_id,
            final(self)@.commands == old(self)@.commands.filter(not_named::<H>(name@)),
    {
        let ghost cmds = self@.commands;
        match self.find(name) {
            Some(k) => {
                proof {
                    assert forall|i: int| 0 <= i < cmds.len() && i != k implies (
                    #[trigger] cmds[i]).name != name@ by {
                        if i < k {
                            assert(name_lt(cmds[i].name, cmds[k as int].name));
                        } else {
                            assert(name_lt(cmds[k as int].name, cmds[i].name));
                        }
                        lemma_bytes_lt_irreflexive(encode_utf8(name@));
                    }
                    lemma_filter_all_but_one(cmds, not_named::<H>(name@), k as int);
                }
                self.commands.remove(k);
                proof {
                    let nc = self@.commands;
                    assert(nc =~= cmds.remove(k as int));
                    assert forall|i: int, j: int| 0 <= i < j < nc.len() implies name_lt(
                        (#[trigger] nc[i]).name,
                        (#[trigger] nc[j]).name,
                    ) by {
                        let i2 = if i < k { i } else { i + 1 };
                        let j2 = if j < k { j } else { j + 1 };
                        assert(nc[i] == cmds[i2]);
                        assert(nc[j] == cmds[j2]);
                    }
                    assert forall|i: int, j: int| 0 <= i < j < nc.len() implies (
                    #[trigger] nc[i]).id != (#[trigger] nc[j]).id by {
                        let i2 = if i < k { i } else { i + 1 };
                        let j2 = if j < k { j } else { j + 1 };
                        assert(nc[i] == cmds[i2]);
                        assert(nc[j] == cmds[j2]);
                    }
                    assert forall|i: int| 0 <= i < nc.len() implies 1 <= (#[trigger] nc[i]).id.0
                        < self.next_id by {
                        let i2 = if i < k { i } else { i + 1 };
                        assert(nc[i] == cmds[i2]);
                    }
                }
            },
            None => {
                proof {
                    assert forall|i: int| 0 <= i < cmds.len() implies (
                    #[trigger] not_named::<H>(name@))(cmds[i]) by {
                        if cmds[i].name == name@ {
                            assert(registered(cmds, name@));
                        }
                    }
                    lemma_filter_all(cmds, not_named::<H>(name@));
                }
            },
        }
    }

    /// The handler registered under `name`.
    pub fn handler(&self, name: &str) -> (r: Result<&H, LunaError>)
        requires
            self.wf(),
        ensures
            r is Ok <==> registered(self@.commands, name@),
            r matches Ok(h) ==> exists|k: int|
                0 <= k < self@.commands.len() && self@.commands[k].name == name@
                    && self@.commands[k].handler == *h,
            r matches Err(e) ==> e matches LunaError::CommandNotFound(n) && n@ == name@,
    {
        match self.find(name) {
            Some(k) => Ok(&self.commands[k].handler),
            None => Err(LunaError::CommandNotFound(name.to_owned())),
        }
    }

    /// The result of running the command named `name`, given how the run of
    /// its handler went: an unknown name is an error of its own, a failed
    /// run is reported with the handler's message.
    pub fn execute(&self, name: &str, outcome: Result<Option<String>, String>) -> (r: Result<
        Option<String>,
        LunaError,
    >)
        requires
            self.wf(),
        ensures
            !registered(self@.commands, name@) ==> (r matches Err(LunaError::CommandNotFound(n))
                && n@ == name@),
            registered(self@.commands, name@) && outcome is Ok ==> r == Ok::<
                Option<String>,
                LunaError,
            >(outcome->Ok_0),
            registered(self@.commands, name@) && outcome is Err ==> (r matches Err(
                LunaError::CommandExecutionFailed { name: n, reason },
            ) && n@ == name@ && reason == outcome->Err_0),
    {
        match self.find(name) {
            None => Err(LunaError::CommandNotFound(name.to_owned())),
            Some(_) => match outcome {
                Ok(v) => Ok(v),
                Err(reason) => Err(LunaError::CommandExecutionFailed { name: name.to_owned(), reason }),
            },
        }
    }

    /// A summary of every command, sorted by name.
    pub fn list(&self) -> (r: Vec<CommandInfo>)
        requires
            self.wf(),
        ensures
            r@.len() == self@.commands.len(),
            forall|i: int|
                0 <= i < r@.len() ==> (#[trigger] r@[i]).id == self@.commands[i].id
                    && r@[i].name@ == self@.commands[i].name && r@[i].description@
                    == self@.commands[i].description,
    {
        let n = self.commands.len();
        let mut r: Vec<CommandInfo> = Vec::new();
        let mut i: usize = 0;
        while i < n
            invariant
                n == self@.commands.len(),
                i <= n,
                r@.len() == i,
                forall|k: int|
                    0 <= k < i ==> (#[trigger] r@[k]).id == self@.commands[k].id && r@[k].name@
                        == self@.commands[k].name && r@[k].description@
                        == self@.commands[k].description,
            decreases n - i,
        {
            let e = &self.commands[i];
            r.push(
                CommandInfo { id: e.id, name: e.name.clone(), description: e.description.clone() },
            );
            i = i + 1;
        }
        r
    }

    /// Some command is registered under `name`.
    pub fn contains(&self, name: &str) -> (b: bool)
        requires
            self.wf(),
        ensures
            b == registered(self@.commands, name@),
    {
        self.find(name).is_some()
    }
}

impl<H> Default for CommandRegistry<H> {
    fn default() -> (r: Self)
        ensures
            r.wf(),
            r@.commands == Seq::<CommandRecord<H>>::empty(),
            r@.next_id == 1,
    {
        Self::new()
    }
}

/// A command just put into the registry is registered under its name.
pub proof fn law_registered_after_register<H>(
    cmds: Seq<CommandRecord<H>>,
    k: int,
    rec: CommandRecord<H>,
)
    requires
        0 <= k <= cmds.len(),
    ensures
        registered(cmds.insert(k, rec), rec.name),
{
    assert(cmds.insert(k, rec)[k] == rec);
}

/// After `name` is unregistered no command has that name, and every other
/// name stays registered.
pub proof fn law_unregister_removes<H>(cmds: Seq<CommandRecord<H>>, name: Seq<char>)
    ensures
        !registered(cmds.filter(not_named::<H>(name)), name),
        forall|other: Seq<char>|
            other != name && #[trigger] registered(cmds, other) ==> registered(
                cmds.filter(not_named::<H>(name)),
                other,
            ),
{
    let kept = cmds.filter(not_named::<H>(name));
    if registered(kept, name) {
        let i = choose|i: int| 0 <= i < kept.len() && (#[trigger] kept[i]).name == name;
        cmds.lemma_filter_pred(not_named::<H>(name), i);
    }
    assert forall|other: Seq<char>|
        other != name && #[trigger] registered(cmds, other) implies registered(kept, other) by {
        let a = choose|a: int| 0 <= a < cmds.len() && (#[trigger] cmds[a]).name == other;
        cmds.lemma_filter_contains(not_named::<H>(name), a);
        let b = choose|b: int| 0 <= b < kept.len() && kept[b] == cmds[a];
        assert(kept[b].name == other);
    }
}

/// `bytes_lt` is the lexicographic order of byte strings, the order of
/// `str`: `a` comes first where it is a proper prefix of `b`, or where at the
/// first index at which they differ `a` has the smaller byte, whatever the
/// lengths.
pub proof fn law_bytes_lt_lexicographic(a: Seq<u8>, b: Seq<u8>)
    ensures
        bytes_lt(a, b) <==> ((a.len() < b.len() && b.take(a.len() as int) == a) || exists|i: int|
            0 <= i < a.len() && i < b.len() && a.take(i) == b.take(i) && #[trigger] a[i] < b[i]),
    decreases a.len(),
{
    let p = a.len() < b.len() && b.take(a.len() as int) == a;
    if a.len() == 0 {
        assert(b.take(0) =~= a);
    } else if b.len() == 0 {
    } else if a[0] != b[0] {
        if a[0] < b[0] {
            assert(a.take(0) =~= b.take(0));
        } else {
            if p {
                assert(b.take(a.len() as int)[0] == a[0]);
            }
            if exists|i: int| 0 <= i < a.len() && i < b.len() && a.take(i) == b.take(i) && #[trigger] a[i] < b[i] {
                let i = choose|i: int| 0 <= i < a.len() && i < b.len() && a.take(i) == b.take(i) && #[trigger] a[i] < b[i];
                if i > 0 {
                    assert(a.take(i)[0] == b.take(i)[0]);
                }
            }
        }
    } else {
        let a2 = a.drop_first();
        let b2 = b.drop_first();
        law_bytes_lt_lexicographic(a2, b2);
        if a2.len() < b2.len() && b2.take(a2.len() as int) == a2 {
            assert(b.take(a.len() as int) =~= seq![b[0]] + b2.take(a2.len() as int));
            assert(a =~= seq![a[0]] + a2);
        }
        if p {
            assert(b2.take(a2.len() as int) =~= b.take(a.len() as int).drop_first());
            assert(a2 =~= a.drop_first());
        }
        if exists|i: int| 0 <= i < a2.len() && i < b2.len() && a2.take(i) == b2.take(i) && #[trigger] a2[i] < b2[i] {
            let i = choose|i: int| 0 <= i < a2.len() && i < b2.len() && a2.take(i) == b2.take(i) && #[trigger] a2[i] < b2[i];
            assert(a.take(i + 1) =~= seq![a[0]] + a2.take(i));
            assert(b.take(i + 1) =~= seq![b[0]] + b2.take(i));
            assert(a[i + 1] < b[i + 1]);
        }
        if exists|i: int| 0 <= i < a.len() && i < b.len() && a.take(i) == b.take(i) && #[trigger] a[i] < b[i] {
            let i = choose|i: int| 0 <= i < a.len() && i < b.len() && a.take(i) == b.take(i) && #[trigger] a[i] < b[i];
            assert(i > 0);
            assert(a2.take(i - 1) =~= a.take(i).drop_first());
            assert(b2.take(i - 1) =~= b.take(i).drop_first());
            assert(a2[i - 1] < b2[i - 1]);
        }
    }
}

} // verus!
