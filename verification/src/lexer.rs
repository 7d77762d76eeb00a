use vstd::prelude::*;
use vstd::string::StringSliceAdditionalSpecFns;

use crate::scanner::live_prefix;
use crate::scanner::next_token;
use crate::scanner::Scanner;
use crate::scanner::ScannerRead;
use crate::scanner::ScannerScan;
use crate::token::Token;
use crate::token::TokenModel;

verus! {

/// The consumer-facing token queue over a scanner: it hands out one token
/// per request, asking the classifier for a fresh batch only when its own
/// queue is empty, and takes tokens back for later redelivery.
pub struct Lexer {
    scanner: Scanner,
    cache_tokens: Vec<Token>,
}

/// Pull/push access to the token stream. `queued` is the sequence of
/// not-yet-delivered tokens held locally; `live` and `cursor` are the
/// underlying scanner's remaining real bytes and absolute position.
pub trait LexerTokenizer {
    /// Bookkeeping invariant of the underlying scanner.
    spec fn inv(&self) -> bool;

    /// The tokens held locally, in delivery order.
    spec fn queued(&self) -> Seq<TokenModel>;

    /// The real bytes the scanner has not yet consumed.
    spec fn live(&self) -> Seq<u8>;

    /// Absolute offset of the scanner's next unconsumed byte.
    spec fn cursor(&self) -> nat;

    /// The next token: the front of the local queue when one is held, else
    /// the token the scanner produces at its current position.
    fn get_token(&mut self) -> (t: Token)
        requires
            old(self).inv(),
        ensures
            final(self).inv(),
            old(self).queued().len() > 0 ==> t@ == old(self).queued()[0]
                && final(self).queued() == old(self).queued().skip(1)
                && final(self).live() == old(self).live()
                && final(self).cursor() == old(self).cursor(),
            old(self).queued().len() == 0 ==> t@ == next_token(
                old(self).live(),
                old(self).cursor(),
            ).0
                && final(self).queued() == Seq::<TokenModel>::empty()
                && final(self).live() == old(self).live().skip(
                next_token(old(self).live(), old(self).cursor()).1 as int,
            )
                && final(self).cursor() == old(self).cursor() + next_token(
                old(self).live(),
                old(self).cursor(),
            ).1,
    ;

    /// Hold a token back: it is redelivered after the tokens already held,
    /// before anything newly produced by the scanner. The underlying scan
    /// position does not move.
    fn push_token(&mut self, t: Token)
        requires
            old(self).inv(),
        ensures
            final(self).inv(),
            final(self).queued() == old(self).queued().push(t@),
            final(self).live() == old(self).live(),
            final(self).cursor() == old(self).cursor(),
    ;
}

impl Lexer {
    /// A lexer over an in-memory byte stream, positioned at offset 0 with
    /// no tokens held back.
    pub fn from_bytes(source: Vec<u8>) -> (lx: Lexer)
        requires
            source@.len() < usize::MAX,
        ensures
            lx.inv(),
            lx.queued() == Seq::<TokenModel>::empty(),
            lx.live() == live_prefix(source@),
            lx.cursor() == 0,
    {
        let lx = Lexer { scanner: Scanner::from_bytes(source), cache_tokens: Vec::new() };
        proof {
            assert(lx.queued() =~= Seq::<TokenModel>::empty());
        }
        lx
    }

    /// A lexer over the bytes of an in-memory text, positioned at 0.
    pub fn from_string(s: &str) -> (lx: Lexer)
        requires
            s.spec_bytes().len() < usize::MAX,
        ensures
            lx.inv(),
            lx.queued() == Seq::<TokenModel>::empty(),
            lx.live() == live_prefix(s.spec_bytes()),
            lx.cursor() == 0,
    {
        let lx = Lexer { scanner: Scanner::from_string(s), cache_tokens: Vec::new() };
        proof {
            assert(lx.queued() =~= Seq::<TokenModel>::empty());
        }
        lx
    }
}

impl LexerTokenizer for Lexer {
    closed spec fn inv(&self) -> bool {
        self.scanner.inv()
    }

    closed spec fn queued(&self) -> Seq<TokenModel> {
        self.cache_tokens@.map_values(|t: Token| t@)
    }

    closed spec fn live(&self) -> Seq<u8> {
        self.scanner.live()
    }

    closed spec fn cursor(&self) -> nat {
        self.scanner.cursor()
    }

    fn push_token(&mut self, t: Token) {
        self.cache_tokens.push(t);
        proof {
            let prev = old(self).cache_tokens@;
            assert(self.cache_tokens@.map_values(|t2: Token| t2@) =~= prev.map_values(
                |t2: Token| t2@,
            ).push(t@));
        }
    }

    fn get_token(&mut self) -> (t: Token) {
        if self.cache_tokens.is_empty() {
            proof {
                assert(old(self).queued().len() == 0);
            }
            self.cache_tokens = self.scanner.read();
        }
        let ghost cache_before = self.cache_tokens@;
        let t = self.cache_tokens.remove(0);
        proof {
            assert(self.cache_tokens@ =~= cache_before.skip(1));
            assert(self.cache_tokens@.map_values(|t2: Token| t2@) =~= cache_before.map_values(
                |t2: Token| t2@,
            ).skip(1));
            if old(self).queued().len() == 0 {
                assert(self.cache_tokens@.map_values(|t2: Token| t2@) =~= Seq::<
                    TokenModel,
                >::empty());
            }
        }
        t
    }
}

} // verus!
