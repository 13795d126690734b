//! Reading a whole document into a type, and the steps that a
//! `Deserialize` implementation for a structure takes.
use vstd::prelude::*;
use vstd::string::StringSliceAdditionalSpecFns;
use crate::token::Token;
use crate::lexer::{Lexer, LexerState, start_state, progress, lemma_lexer_wf};
use crate::parser::{
    EvalError,
    FieldValue,
    Field,
    ScopeTracker,
    new_scope_view,
    value_in,
    lemma_scope_view,
    lemma_scope_of_view,
};
use crate::deserialize::{Deserialize, boxed_str};
use crate::error::{TeroError, TeroReport, eval_report};

verus! {

broadcast use {lemma_lexer_wf, lemma_scope_view, lemma_scope_of_view};

/// The value that a whole document stands for: its top-level object,
/// which has no braces around it.
pub open spec fn document_value(st: LexerState) -> FieldValue {
    FieldValue::Block(ScopeTracker::from_view(new_scope_view(st, false)))
}

/// Reads the document `code` into a `T`: its top-level object is read as
/// a `T`. A document whose version line is refused gives
/// `InvalidVersion`; a failure while reading gives the error with the
/// excerpt of the document that shows where it happened.
pub fn from_str<T: Deserialize>(code: &str) -> (r: Result<T, TeroError>)
    requires
        code.spec_bytes().len() < u32::MAX,
    ensures
        match start_state(code.spec_bytes()) {
            Err(_) => r matches Err(te) && te@ == TeroReport::InvalidVersion,
            Ok(st) => exists|res: Result<T, EvalError>, st2: LexerState|
                #[trigger] T::reads(code.spec_bytes(), document_value(st), st, res, st2) && match res {
                    Ok(v) => r == Ok::<T, TeroError>(v),
                    Err(e) => r matches Err(te) && te@ == eval_report(code.spec_bytes(), st2, e),
                },
        },
{
    let mut lexer = match Lexer::new(code) {
        Ok(lexer) => lexer,
        Err(_) => {
            return Err(TeroError::invalid_version());
        },
    };
    let ghost s = lexer.input();
    let ghost st = lexer@;
    let scope = ScopeTracker::new(&lexer, false);
    let field = FieldValue::Block(scope);
    assert(field == document_value(st));
    let res = T::deserialize_tero(field, &mut lexer);
    let ghost st2 = lexer@;
    match res {
        Ok(v) => Ok(v),
        Err(err) => {
            let te = TeroError::from_eval(err, &lexer);
            Err(te)
        },
    }
}

/// What an implementation for a structure does with an entry for one of
/// its fields, whose value so far is `slot`: a second entry for the field
/// is refused as a duplicate key, reported at its key; `nil` leaves an
/// optional field empty; any other value is read as the field's type.
pub fn read_field<T: Deserialize>(
    slot: &mut Option<T>,
    field: Field,
    optional: bool,
    lexer: &mut Lexer,
) -> (r: Result<(), EvalError>)
    requires
        old(lexer).wf(),
        value_in(old(lexer).input(), field.value_of()),
    ensures
        final(lexer).wf(),
        final(lexer).input() == old(lexer).input(),
        progress(old(lexer).input(), final(lexer)@) <= progress(old(lexer).input(), old(lexer)@),
        *old(slot) is Some ==> {
            &&& r == Err::<(), EvalError>(EvalError::DuplicateKey(field.key_of()))
            &&& *final(slot) == *old(slot)
            &&& final(lexer)@ == old(lexer)@
        },
        *old(slot) is None && optional && field.value_of() == FieldValue::Literal(Token::Nil) ==> {
            &&& r is Ok
            &&& *final(slot) is None
            &&& final(lexer)@ == old(lexer)@
        },
        *old(slot) is None && !(optional && field.value_of() == FieldValue::Literal(Token::Nil))
            ==> exists|res: Result<T, EvalError>|
            #[trigger] T::reads(old(lexer).input(), field.value_of(), old(lexer)@, res, final(lexer)@)
                && match res {
                Ok(x) => r is Ok && *final(slot) == Some(x),
                Err(e) => r == Err::<(), EvalError>(e) && *final(slot) is None,
            },
{
    let ghost s = lexer.input();
    let ghost st = lexer@;
    if slot.is_some() {
        return Err(EvalError::DuplicateKey(field.span()));
    }
    let val = field.val();
    if optional {
        if let FieldValue::Literal(Token::Nil) = val {
            return Ok(());
        }
    }
    let res = T::deserialize_tero(val, lexer);
    proof {
        assert(T::reads(s, field.value_of(), st, res, lexer@));
    }
    match res {
        Ok(x) => {
            *slot = Some(x);
            Ok(())
        },
        Err(e) => Err(e),
    }
}

/// What an implementation for a structure does once the object has ended:
/// a required field that no entry gave is reported missing, by name.
pub fn check_field<T>(slot: &Option<T>, name: &str, optional: bool) -> (r: Result<(), EvalError>)
    ensures
        r is Err <==> (slot is None && !optional),
        r matches Err(e) ==> (e matches EvalError::MissingField(n) && n@ == name@),
{
    if slot.is_none() && !optional {
        Err(EvalError::MissingField(boxed_str(name.to_owned())))
    } else {
        Ok(())
    }
}

} // verus!
