//! Resolving a polyglot use step by step: references are handed to a reference
//! analysis, which resolves them to the nodes that define them.
use crate::text::Language;
use std::path::PathBuf;
use tree_sitter::Node;
use vstd::prelude::*;

verus! {

#[verifier::external_type_specification]
#[verifier::external_body]
pub struct ExPathBuf(PathBuf);

/// A node that refers to something defined elsewhere.
#[derive(Debug, PartialEq, Eq)]
pub struct Reference<'tree>(pub Node<'tree>);

/// A step of resolution that can lead to one of two states.
pub enum TwoTransitions<T0, T1> {
    T0(T0),
    T1(T1),
}

/// A step of resolution that can lead to one of three states.
pub enum ThreeTransitions<T0, T1, T2> {
    T0(T0),
    T1(T1),
    T2(T2),
}

/// A reference could not be resolved.
#[derive(Debug)]
pub struct SolvingError;

/// An evaluation whose source is not known yet.
#[derive(Debug)]
pub struct NoSource<S> {
    pub content: S,
}

/// An evaluation of a builder whose source is not known yet.
#[derive(Debug)]
pub struct NoBuilder<S> {
    pub content: S,
}

/// An evaluation of code in a language, each of them known or still to resolve.
pub struct PolygloteSource<L, C> {
    pub language: L,
    pub code: C,
}

/// Resolves references to the nodes that define them. Implemented by the users
/// of the library; nothing is assumed of its answers.
pub trait ReferenceAnalysis {
    type Reff;

    fn solve<'tree>(&'tree self, reference: &Self::Reff) -> Result<Node<'tree>, SolvingError>;
}

impl<'tree> NoSource<Reference<'tree>> {
    /// `solve`: hands the reference to `refanalysis` and keeps the node it
    /// resolves to (see `NoSource::resolved`): `Ok` with that node when the
    /// analysis answers with one, its error when it errs.
    pub fn solve<A: ReferenceAnalysis<Reff = Reference<'tree>>>(self, refanalysis: &'tree A) -> (r:
        Result<NoSource<Node<'tree>>, SolvingError>)
        ensures
            exists|ans: Result<Node<'tree>, SolvingError>|
                #[trigger] call_ensures(A::solve, (refanalysis, &self.content), ans) && match ans {
                    Ok(d) => r matches Ok(s) && s.content == d,
                    Err(_) => r is Err,
                },
    {
        // called as a function value, so that its answer is recorded by `call_ensures`
        let ask = A::solve;
        let source = ask(refanalysis, &self.content);
        NoSource::resolved(source)
    }
}

impl<'tree> NoSource<Node<'tree>> {
    /// The state after a resolution: the resolved node, or the error.
    pub fn resolved(solution: Result<Node<'tree>, SolvingError>) -> (r: Result<Self, SolvingError>)
        ensures
            match solution {
                Ok(n) => r matches Ok(s) && s.content == n,
                Err(_) => r is Err,
            },
    {
        match solution {
            Ok(source) => Ok(NoSource { content: source }),
            Err(e) => Err(e),
        }
    }
}

impl<'tree> NoBuilder<Reference<'tree>> {
    /// `solve`: hands the reference to `refanalysis` and keeps the node it
    /// resolves to (see `NoBuilder::resolved`): `Ok` with that node when the
    /// analysis answers with one, its error when it errs.
    pub fn solve<A: ReferenceAnalysis<Reff = Reference<'tree>>>(self, refanalysis: &'tree A) -> (r:
        Result<NoBuilder<Node<'tree>>, SolvingError>)
        ensures
            exists|ans: Result<Node<'tree>, SolvingError>|
                #[trigger] call_ensures(A::solve, (refanalysis, &self.content), ans) && match ans {
                    Ok(d) => r matches Ok(s) && s.content == d,
                    Err(_) => r is Err,
                },
    {
        // called as a function value, so that its answer is recorded by `call_ensures`
        let ask = A::solve;
        let source = ask(refanalysis, &self.content);
        NoBuilder::resolved(source)
    }
}

impl<'tree> NoBuilder<Node<'tree>> {
    /// The state after a resolution: the resolved node, or the error.
    pub fn resolved(solution: Result<Node<'tree>, SolvingError>) -> (r: Result<Self, SolvingError>)
        ensures
            match solution {
                Ok(n) => r matches Ok(s) && s.content == n,
                Err(_) => r is Err,
            },
    {
        match solution {
            Ok(source) => Ok(NoBuilder { content: source }),
            Err(e) => Err(e),
        }
    }
}

impl<'tree, C> PolygloteSource<Reference<'tree>, C> {
    /// `solve`: hands the language reference to `refanalysis` and keeps the
    /// node it resolves to, with the code unchanged (see `with_language`):
    /// `Ok` when the analysis answers with a node, its error when it errs.
    pub fn solve<A: ReferenceAnalysis<Reff = Reference<'tree>>>(self, refanalysis: &'tree A) -> (r:
        Result<PolygloteSource<Node<'tree>, C>, SolvingError>)
        ensures
            exists|ans: Result<Node<'tree>, SolvingError>|
                #[trigger] call_ensures(A::solve, (refanalysis, &self.language), ans) && match ans {
                    Ok(d) => r matches Ok(s) && s.language == d && s.code == self.code,
                    Err(_) => r is Err,
                },
    {
        // called as a function value, so that its answer is recorded by `call_ensures`
        let ask = A::solve;
        let language = ask(refanalysis, &self.language);
        PolygloteSource::with_language(language, self.code)
    }
}

impl<'tree, C> PolygloteSource<Node<'tree>, C> {
    /// The state after the language is resolved: the resolved node and `code`,
    /// or the error.
    pub fn with_language(solution: Result<Node<'tree>, SolvingError>, code: C) -> (r: Result<
        Self,
        SolvingError,
    >)
        ensures
            match solution {
                Ok(n) => r matches Ok(s) && s.language == n && s.code == code,
                Err(_) => r is Err,
            },
    {
        match solution {
            Ok(language) => Ok(PolygloteSource { language, code }),
            Err(e) => Err(e),
        }
    }
}

impl<'tree> PolygloteSource<Language, Reference<'tree>> {
    /// `solve`: hands the code reference to `refanalysis` and keeps the node it
    /// resolves to, with the language unchanged (see `with_code`): `Ok` when
    /// the analysis answers with a node, its error when it errs.
    pub fn solve<A: ReferenceAnalysis<Reff = Reference<'tree>>>(self, refanalysis: &'tree A) -> (r:
        Result<PolygloteSource<Language, Node<'tree>>, SolvingError>)
        ensures
            exists|ans: Result<Node<'tree>, SolvingError>|
                #[trigger] call_ensures(A::solve, (refanalysis, &self.code), ans) && match ans {
                    Ok(d) => r matches Ok(s) && s.language == self.language && s.code == d,
                    Err(_) => r is Err,
                },
    {
        // called as a function value, so that its answer is recorded by `call_ensures`
        let ask = A::solve;
        let code = ask(refanalysis, &self.code);
        PolygloteSource::with_code(self.language, code)
    }
}

impl<'tree> PolygloteSource<Language, Node<'tree>> {
    /// The state after the code is resolved: `language` and the resolved node,
    /// or the error.
    pub fn with_code(language: Language, solution: Result<Node<'tree>, SolvingError>) -> (r: Result<
        Self,
        SolvingError,
    >)
        ensures
            match solution {
                Ok(n) => r matches Ok(s) && s.language == language && s.code == n,
                Err(_) => r is Err,
            },
    {
        match solution {
            Ok(code) => Ok(PolygloteSource { language, code }),
            Err(e) => Err(e),
        }
    }
}

impl<C> PolygloteSource<Language, C> {
    /// `lang`: the language of the code.
    pub fn lang(&self) -> (r: &Language)
        ensures
            *r == self.language,
    {
        &self.language
    }
}

impl<L> PolygloteSource<L, PathBuf> {
    /// `code`: the file that holds the code.
    pub fn code(&self) -> (r: &PathBuf)
        ensures
            *r == self.code,
    {
        &self.code
    }
}

impl<L> PolygloteSource<L, String> {
    /// `code`: the code itself.
    pub fn code(&self) -> (r: &String)
        ensures
            *r == self.code,
    {
        &self.code
    }
}

} // verus!
