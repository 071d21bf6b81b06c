//! What one connection decides as its client's events come in: whom it speaks
//! for, what it asks the user registry, and when a request is refused.
use vstd::prelude::*;
use crate::Token;
use crate::error::ClientError;

verus! {

/// A client's event, without what only the program around it carries on (a
/// position, a structure).
#[derive(Clone, Debug)]
pub enum ClientEvent {
    Register { name: String },
    Login { token: Token },
    Move,
    PlaceStructure,
    Disconnect,
}

/// What a connection does next with an event.
#[derive(Clone, Debug)]
pub enum Step {
    /// Ask the user registry to register `name`; its answer goes to `Session::registered`.
    AskRegister { name: String },
    /// Ask the user registry to log in `token`; its answer goes to `Session::logged_in`.
    AskLogin { token: Token },
    /// Carry out the request for the user of `token`.
    ActFor { token: Token },
    /// Refuse the request: answer that the connection is reset, and read no more
    /// events in this tick.
    Violation,
    /// Stop serving the client.
    Close,
}

/// What a connection answers its client.
#[derive(Clone, Copy, Debug)]
pub enum Answer {
    /// The token of the newly registered user.
    Token(Token),
    /// The request was refused.
    Refused(ClientError),
}

/// Whom a connection speaks for: the token it registered or logged in with, and
/// the user's name once known.
#[derive(Clone, Debug)]
pub struct Session {
    pub token: Option<Token>,
    pub name: Option<String>,
}

impl Session {
    /// A connection that speaks for nobody yet.
    pub fn new() -> (r: Session)
        ensures
            r.token is None,
            r.name is None,
    {
        Session { token: None, name: None }
    }

    /// What to do with `event`: registering and logging in go to the user
    /// registry (logging in with a token makes the connection speak for it,
    /// whatever the registry answers); moving and placing a structure are
    /// carried out for the user the connection speaks for, and are a violation
    /// where it speaks for nobody; disconnecting closes the connection.
    pub fn on_event(&mut self, event: ClientEvent) -> (r: Step)
        ensures
            event matches ClientEvent::Register { name } ==> r == (Step::AskRegister { name }) && *final(self) == *old(self),
            event matches ClientEvent::Login { token } ==> r == (Step::AskLogin { token })
                && final(self).token == Some(token) && final(self).name == old(self).name,
            (event is Move || event is PlaceStructure) ==> *final(self) == *old(self) && (match old(self).token {
                Some(t) => r == (Step::ActFor { token: t }),
                None => r is Violation,
            }),
            event is Disconnect ==> r is Close && *final(self) == *old(self),
    {
        match event {
            ClientEvent::Register { name } => Step::AskRegister { name },
            ClientEvent::Login { token } => {
                self.token = Some(token);
                Step::AskLogin { token }
            }
            ClientEvent::Move | ClientEvent::PlaceStructure => match self.token {
                Some(t) => Step::ActFor { token: t },
                None => Step::Violation,
            },
            ClientEvent::Disconnect => Step::Close,
        }
    }

    /// The registry's answer to registering `name`: with a token, the connection
    /// speaks for the new user and the client gets the token; without one, the
    /// client is refused.
    pub fn registered(&mut self, name: String, answer: Option<Token>) -> (r: Answer)
        ensures
            answer matches Some(t) ==> final(self).token == Some(t) && final(self).name == Some(name) && r == Answer::Token(t),
            answer is None ==> *final(self) == *old(self) && r == Answer::Refused(ClientError::Register),
    {
        match answer {
            Some(t) => {
                self.token = Some(t);
                self.name = Some(name);
                Answer::Token(t)
            }
            None => Answer::Refused(ClientError::Register),
        }
    }

    /// The registry's answer to logging in: where it accepted, the connection
    /// takes the user's name (`user_name`, none where the registry holds no such
    /// user) and nothing is answered; else the client is refused.
    pub fn logged_in(&mut self, accepted: bool, user_name: Option<String>) -> (r: Option<Answer>)
        ensures
            accepted ==> r is None && final(self).name == user_name && final(self).token == old(self).token,
            !accepted ==> r == Some(Answer::Refused(ClientError::Login)) && *final(self) == *old(self),
    {
        if accepted {
            self.name = user_name;
            None
        } else {
            Some(Answer::Refused(ClientError::Login))
        }
    }
}

} // verus!
