//! The users of the server: registration under a unique name, logging in and
//! off, and moving.
use vstd::prelude::*;
use crate::{Token, token_eq};
use rand::Rng;

verus! {

/// A change a user asks for.
#[derive(Clone, Debug)]
pub enum UserModInstruction<P> {
    /// Move the user to a position.
    Move(P),
}

/// A registered player; `P` is the type of a position in the world.
#[derive(Clone, Debug)]
pub struct User<P> {
    pub name: String,
    pub pos: P,
    pub health: u8,
    pub online: bool,
}

#[verifier::external_type_specification]
#[verifier::external_body]
pub struct ExThreadRng(rand::rngs::ThreadRng);

/// `rand::thread_rng`: the thread's random number generator. Nothing is stated of it.
#[verifier::external_body]
fn thread_rng() -> rand::rngs::ThreadRng {
    rand::thread_rng()
}

/// `rand::Rng::gen` for a byte: the next random byte of `rng`. Nothing is stated of it.
#[verifier::external_body]
fn gen_byte(rng: &mut rand::rngs::ThreadRng) -> u8 {
    rng.gen()
}

impl<P: Copy> User<P> {
    /// A fresh token, made of random bytes.
    fn gen_token() -> (t: Token) {
        let mut rng = thread_rng();
        let mut token: Token = [0u8; 16];
        let mut i: usize = 0;
        while i < 16
            invariant
                i <= 16,
            decreases 16 - i,
        {
            token[i] = gen_byte(&mut rng);
            i = i + 1;
        }
        token
    }

    /// A new offline user with full health at `pos`, and a fresh random token for it.
    pub fn new(name: String, pos: P) -> (r: (Token, User<P>))
        ensures
            r.1 == (User { name, pos, health: 100, online: false }),
    {
        let token = Self::gen_token();
        (token, User { name, pos, health: 100, online: false })
    }
}

/// The position of `t` in a list of entries, if it is listed.
pub open spec fn find_token<P>(es: Seq<(Token, User<P>)>, t: Token) -> Option<int> {
    if exists|i: int| 0 <= i < es.len() && #[trigger] es[i].0 == t {
        Some(choose|i: int| 0 <= i < es.len() && #[trigger] es[i].0 == t)
    } else {
        None
    }
}

/// No token is listed twice.
pub open spec fn tokens_distinct<P>(es: Seq<(Token, User<P>)>) -> bool {
    forall|i: int, j: int| 0 <= i < j < es.len() ==> #[trigger] es[i].0 != #[trigger] es[j].0
}

/// Whether some user in `m` is named `name`.
pub open spec fn name_taken<P>(m: Map<Token, User<P>>, name: Seq<char>) -> bool {
    exists|t: Token| m.contains_key(t) && (#[trigger] m[t]).name@ == name
}

/// No two users in `m` share a name.
pub open spec fn names_unique<P>(m: Map<Token, User<P>>) -> bool {
    forall|a: Token, b: Token| m.contains_key(a) && m.contains_key(b) && a != b
        ==> (#[trigger] m[a]).name@ != (#[trigger] m[b]).name@
}

/// Registering `user` under `token`: refused where the name is taken, else the
/// user is stored under the token (replacing any user stored there).
pub open spec fn register_model<P>(m: Map<Token, User<P>>, token: Token, user: User<P>) -> (Map<Token, User<P>>, Option<Token>) {
    if name_taken(m, user.name@) {
        (m, None)
    } else {
        (m.insert(token, user), Some(token))
    }
}

/// Logging in: succeeds for a stored user who is offline, and marks it online.
pub open spec fn login_model<P>(m: Map<Token, User<P>>, token: Token) -> (Map<Token, User<P>>, bool) {
    if m.contains_key(token) && !m[token].online {
        (m.insert(token, User { online: true, ..m[token] }), true)
    } else {
        (m, false)
    }
}

/// Logging off: succeeds for a stored user, and marks it offline.
pub open spec fn logoff_model<P>(m: Map<Token, User<P>>, token: Token) -> (Map<Token, User<P>>, bool) {
    if m.contains_key(token) {
        (m.insert(token, User { online: false, ..m[token] }), true)
    } else {
        (m, false)
    }
}

/// Applying a change to a stored user; nothing happens for an unknown token.
pub open spec fn mod_model<P>(m: Map<Token, User<P>>, token: Token, instruction: UserModInstruction<P>) -> Map<Token, User<P>> {
    if m.contains_key(token) {
        match instruction {
            UserModInstruction::Move(pos) => m.insert(token, User { pos, ..m[token] }),
        }
    } else {
        m
    }
}

/// The users of the server, keyed by their token.
pub struct Users<P> {
    users: Vec<(Token, User<P>)>,
}

impl<P> View for Users<P> {
    type V = Map<Token, User<P>>;

    closed spec fn view(&self) -> Map<Token, User<P>> {
        map_of(self.users@)
    }
}

/// The map that a list of entries with distinct tokens stands for.
pub open spec fn map_of<P>(es: Seq<(Token, User<P>)>) -> Map<Token, User<P>> {
    Map::new(
        |t: Token| find_token(es, t) is Some,
        |t: Token| es[find_token(es, t)->0].1,
    )
}

proof fn lemma_map_of_update<P>(es: Seq<(Token, User<P>)>, i: int, u: User<P>)
    requires
        tokens_distinct(es),
        0 <= i < es.len(),
    ensures
        tokens_distinct(es.update(i, (es[i].0, u))),
        map_of(es.update(i, (es[i].0, u))) == map_of(es).insert(es[i].0, u),
{
    let es2 = es.update(i, (es[i].0, u));
    assert forall|a: int, b: int| 0 <= a < b < es2.len() implies #[trigger] es2[a].0 != #[trigger] es2[b].0 by {
        assert(es2[a].0 == es[a].0 && es2[b].0 == es[b].0);
    }
    assert forall|t: Token| #[trigger] find_token(es2, t) == find_token(es, t) by {
        if find_token(es, t) is Some {
            let j = find_token(es, t)->0;
            lemma_find_token_unique(es, j);
            assert(es2[j].0 == t);
            lemma_find_token_unique(es2, j);
        } else if find_token(es2, t) is Some {
            let j = find_token(es2, t)->0;
            assert(es[j].0 == t);
        }
    }
    lemma_find_token_unique(es, i);
    assert(map_of(es2) =~= map_of(es).insert(es[i].0, u));
}

proof fn lemma_map_of_push<P>(es: Seq<(Token, User<P>)>, t: Token, u: User<P>)
    requires
        tokens_distinct(es),
        find_token(es, t) is None,
    ensures
        tokens_distinct(es.push((t, u))),
        map_of(es.push((t, u))) == map_of(es).insert(t, u),
{
    let es2 = es.push((t, u));
    assert forall|a: int, b: int| 0 <= a < b < es2.len() implies #[trigger] es2[a].0 != #[trigger] es2[b].0 by {
        if b == es.len() {
            assert(es2[a] == es[a]);
        } else {
            assert(es2[a] == es[a] && es2[b] == es[b]);
        }
    }
    assert forall|k: Token| k != t implies #[trigger] find_token(es2, k) == find_token(es, k) by {
        if find_token(es, k) is Some {
            let j = find_token(es, k)->0;
            lemma_find_token_unique(es, j);
            assert(es2[j] == es[j]);
            lemma_find_token_unique(es2, j);
        } else if find_token(es2, k) is Some {
            let j = find_token(es2, k)->0;
            assert(j < es.len());
            assert(es[j] == es2[j]);
        }
    }
    lemma_find_token_unique(es2, es.len() as int);
    assert forall|k: Token| #[trigger] map_of(es2).contains_key(k) == map_of(es).insert(t, u).contains_key(k) by {
        if k != t {
            assert(find_token(es2, k) == find_token(es, k));
        }
    }
    assert forall|k: Token| map_of(es2).contains_key(k) implies #[trigger] map_of(es2)[k] == map_of(es).insert(t, u)[k] by {
        if k != t {
            let j = find_token(es, k)->0;
            assert(es2[j] == es[j]);
        }
    }
    assert(map_of(es2) =~= map_of(es).insert(t, u));
}

proof fn lemma_find_token_unique<P>(es: Seq<(Token, User<P>)>, i: int)
    requires
        tokens_distinct(es),
        0 <= i < es.len(),
    ensures
        find_token(es, es[i].0) == Some(i),
{
}

impl<P> Users<P> {
    #[verifier::type_invariant]
    closed spec fn inv(&self) -> bool {
        tokens_distinct(self.users@)
    }
}

impl<P: Copy> Users<P> {
    /// Where `token` is listed.
    fn position(&self, token: &Token) -> (r: Option<usize>)
        ensures
            r == (match find_token(self.users@, *token) { Some(i) => Some(i as usize), None => None }),
            r matches Some(i) ==> i < self.users@.len() && self.users@[i as int].0 == *token,
            r is None ==> forall|j: int| 0 <= j < self.users@.len() ==> self.users@[j].0 != *token,
    {
        proof { use_type_invariant(self); }
        let n = self.users.len();
        let mut i: usize = 0;
        while i < n
            invariant
                n == self.users@.len(),
                i <= n,
                tokens_distinct(self.users@),
                forall|j: int| 0 <= j < i ==> self.users@[j].0 != *token,
            decreases n - i,
        {
            if token_eq(&self.users[i].0, token) {
                proof { lemma_find_token_unique(self.users@, i as int); }
                return Some(i);
            }
            i = i + 1;
        }
        None
    }

    /// An empty registry.
    pub fn init() -> (r: Users<P>)
        ensures
            r@ == Map::<Token, User<P>>::empty(),
    {
        let r = Users { users: Vec::new() };
        assert(r@ =~= Map::<Token, User<P>>::empty());
        r
    }

    /// Stores `user` under `token` unless another user already has its name;
    /// answers the token where it was stored.
    pub fn register(&mut self, token: Token, user: User<P>) -> (r: Option<Token>)
        ensures
            (final(self)@, r) == register_model(old(self)@, token, user),
    {
        proof { use_type_invariant(&*self); }
        let n = self.users.len();
        let mut i: usize = 0;
        while i < n
            invariant
                n == self.users@.len(),
                i <= n,
                tokens_distinct(self.users@),
                forall|j: int| 0 <= j < i ==> (#[trigger] self.users@[j]).1.name@ != user.name@,
            decreases n - i,
        {
            if self.users[i].1.name == user.name {
                proof {
                    let t = self.users@[i as int].0;
                    lemma_find_token_unique(self.users@, i as int);
                    assert(self@.contains_key(t) && self@[t].name@ == user.name@);
                }
                return None;
            }
            i = i + 1;
        }
        proof {
            assert forall|t: Token| self@.contains_key(t) implies (#[trigger] self@[t]).name@ != user.name@ by {
                let j = find_token(self.users@, t)->0;
                assert(self.users@[j].1.name@ != user.name@);
            }
        }
        let pos = self.position(&token);
        let mut users: Vec<(Token, User<P>)> = Vec::new();
        std::mem::swap(&mut users, &mut self.users);
        match pos {
            Some(i) => {
                proof { lemma_map_of_update(users@, i as int, user); }
                users.set(i, (token, user));
            }
            None => {
                proof { lemma_map_of_push(users@, token, user); }
                users.push((token, user));
            }
        }
        self.users = users;
        Some(token)
    }

    /// Marks the user of `token` online where it is stored and offline; answers whether it did.
    pub fn login(&mut self, token: Token) -> (r: bool)
        ensures
            (final(self)@, r) == login_model(old(self)@, token),
    {
        proof { use_type_invariant(&*self); }
        match self.position(&token) {
            Some(i) => {
                if !self.users[i].1.online {
                    let mut users: Vec<(Token, User<P>)> = Vec::new();
                    std::mem::swap(&mut users, &mut self.users);
                    let ghost es = users@;
                    proof {
                        lemma_map_of_update(es, i as int, User { online: true, ..es[i as int].1 });
                        lemma_find_token_unique(es, i as int);
                    }
                    users[i].1.online = true;
                    assert(users@ =~= es.update(i as int, (es[i as int].0, User { online: true, ..es[i as int].1 })));
                    self.users = users;
                    true
                } else {
                    proof { lemma_find_token_unique(self.users@, i as int); }
                    assert(self@.contains_key(token));
                    assert(self@[token].online);
                    false
                }
            }
            None => false,
        }
    }

    /// Marks the user of `token` offline where it is stored; answers whether it is stored.
    pub fn logoff(&mut self, token: Token) -> (r: bool)
        ensures
            (final(self)@, r) == logoff_model(old(self)@, token),
    {
        proof { use_type_invariant(&*self); }
        match self.position(&token) {
            Some(i) => {
                let mut users: Vec<(Token, User<P>)> = Vec::new();
                std::mem::swap(&mut users, &mut self.users);
                let ghost es = users@;
                proof {
                    lemma_map_of_update(es, i as int, User { online: false, ..es[i as int].1 });
                    lemma_find_token_unique(es, i as int);
                }
                users[i].1.online = false;
                assert(users@ =~= es.update(i as int, (es[i as int].0, User { online: false, ..es[i as int].1 })));
                self.users = users;
                true
            }
            None => false,
        }
    }

    /// A copy of the user stored under `token`, if any.
    pub fn get_user(&self, token: Token) -> (r: Option<User<P>>)
        ensures
            r is Some == self@.contains_key(token),
            r matches Some(u) ==> u.name@ == self@[token].name@ && u.pos == self@[token].pos
                && u.health == self@[token].health && u.online == self@[token].online,
    {
        proof { use_type_invariant(self); }
        match self.position(&token) {
            Some(i) => {
                proof { lemma_find_token_unique(self.users@, i as int); }
                let u = &self.users[i].1;
                Some(User { name: u.name.clone(), pos: u.pos, health: u.health, online: u.online })
            }
            None => None,
        }
    }

    /// Applies `mod_instruction` to the user stored under `token`, if any.
    pub fn mod_user(&mut self, token: Token, mod_instruction: UserModInstruction<P>)
        ensures
            final(self)@ == mod_model(old(self)@, token, mod_instruction),
    {
        proof { use_type_invariant(&*self); }
        match self.position(&token) {
            Some(i) => {
                let mut users: Vec<(Token, User<P>)> = Vec::new();
                std::mem::swap(&mut users, &mut self.users);
                let ghost es = users@;
                match mod_instruction {
                    UserModInstruction::Move(pos) => {
                        proof {
                            lemma_map_of_update(es, i as int, User { pos, ..es[i as int].1 });
                            lemma_find_token_unique(es, i as int);
                        }
                        users[i].1.pos = pos;
                        assert(users@ =~= es.update(i as int, (es[i as int].0, User { pos, ..es[i as int].1 })));
                    }
                }
                self.users = users;
            }
            None => {}
        }
    }
}

/// A user who has just registered is stored offline under the token it got, and can log in.
pub proof fn lemma_register_then_login<P>(m: Map<Token, User<P>>, token: Token, user: User<P>)
    requires
        !name_taken(m, user.name@),
        !user.online,
    ensures
        register_model(m, token, user).1 == Some(token),
        register_model(m, token, user).0[token] == user,
        login_model(register_model(m, token, user).0, token).1,
{
}

/// A user who is logged in cannot log in again until it logs off; then it can.
pub proof fn lemma_login_once_until_logoff<P>(m: Map<Token, User<P>>, token: Token)
    requires
        m.contains_key(token),
        !m[token].online,
    ensures
        login_model(m, token).1,
        !login_model(login_model(m, token).0, token).1,
        login_model(logoff_model(login_model(m, token).0, token).0, token).1,
{
}

/// Registering a name that is taken is refused and changes nothing.
pub proof fn lemma_register_taken_name<P>(m: Map<Token, User<P>>, token: Token, user: User<P>)
    requires
        name_taken(m, user.name@),
    ensures
        register_model(m, token, user) == (m, Option::<Token>::None),
{
}

/// Every operation keeps the names of the users distinct.
pub proof fn lemma_names_stay_unique<P>(m: Map<Token, User<P>>, token: Token, user: User<P>, instruction: UserModInstruction<P>)
    requires
        names_unique(m),
    ensures
        names_unique(register_model(m, token, user).0),
        names_unique(login_model(m, token).0),
        names_unique(logoff_model(m, token).0),
        names_unique(mod_model(m, token, instruction)),
{
    let r = register_model(m, token, user).0;
    if !name_taken(m, user.name@) {
        assert forall|a: Token, b: Token| r.contains_key(a) && r.contains_key(b) && a != b
            implies (#[trigger] r[a]).name@ != (#[trigger] r[b]).name@ by {
            if a == token {
                assert(!(m.contains_key(b) && m[b].name@ == user.name@));
            } else if b == token {
                assert(!(m.contains_key(a) && m[a].name@ == user.name@));
            }
        }
    }
    let l = login_model(m, token).0;
    assert forall|a: Token, b: Token| l.contains_key(a) && l.contains_key(b) && a != b
        implies (#[trigger] l[a]).name@ != (#[trigger] l[b]).name@ by {
        assert(m[a].name@ != m[b].name@);
    }
    let o = logoff_model(m, token).0;
    assert forall|a: Token, b: Token| o.contains_key(a) && o.contains_key(b) && a != b
        implies (#[trigger] o[a]).name@ != (#[trigger] o[b]).name@ by {
        assert(m[a].name@ != m[b].name@);
    }
    let d = mod_model(m, token, instruction);
    assert forall|a: Token, b: Token| d.contains_key(a) && d.contains_key(b) && a != b
        implies (#[trigger] d[a]).name@ != (#[trigger] d[b]).name@ by {
        assert(m[a].name@ != m[b].name@);
    }
}

} // verus!