//! Recursive-descent parser of CLUX specifications.

use vstd::prelude::*;
use vstd::string::{StringExecFns, StringSliceAdditionalSpecFns};

use crate::ast::{
    CluxSpec, CluxSpecV, LearningRate, LearningRateV, ModelConfig, ModelConfigV, ParseError,
    ParseErrorV, Precision, TrainConfig, TrainConfigV,
};
use crate::lexer::{lemma_lex_at_progress, lex_at, Lexer};
use crate::text::{ascii_lowercase, lemma_ascii_lowercase_idempotent, lowercase_equals, str_equal};
use crate::token::{Token, TokenV};

verus! {

/// Where the parser stands: the current token and the lexer position after it.
pub struct Cursor {
    pub curr: TokenV,
    pub pos: int,
}

/// The cursor after lexing one token of `s` from `pos`.
pub open spec fn cursor_at(s: Seq<u8>, pos: int) -> Cursor {
    Cursor { curr: lex_at(s, pos).0, pos: lex_at(s, pos).1 }
}

/// Consumes the current token: returns it, and the cursor on the next one.
pub open spec fn bump(s: Seq<u8>, c: Cursor) -> (TokenV, Cursor) {
    (c.curr, cursor_at(s, c.pos))
}

/// A cursor that the parser can reach: inside the source, and at its end
/// once the current token is `Eof`.
pub open spec fn cursor_ok(s: Seq<u8>, c: Cursor) -> bool {
    &&& 0 <= c.pos <= s.len()
    &&& (c.curr is Eof ==> c.pos == s.len())
}

/// Input left to the parser: bytes not yet lexed, plus one for a pending
/// token other than `Eof`.
pub open spec fn measure(s: Seq<u8>, c: Cursor) -> int {
    (s.len() - c.pos) + (if c.curr is Eof {
        0int
    } else {
        1int
    })
}

/// Consumes the current token when it is a comma.
pub open spec fn skip_comma(s: Seq<u8>, c: Cursor) -> Cursor {
    if c.curr is Comma {
        cursor_at(s, c.pos)
    } else {
        c
    }
}

/// The precision named by a string literal, compared without regard to
/// ASCII case.
pub open spec fn precision_of(v: Seq<char>) -> Option<Precision> {
    let l = ascii_lowercase(v);
    if l == "fp32"@ {
        Some(Precision::FP32)
    } else if l == "fp16"@ {
        Some(Precision::FP16)
    } else if l == "bf16"@ {
        Some(Precision::BF16)
    } else if l == "int8"@ {
        Some(Precision::INT8)
    } else {
        None
    }
}

/// A model named `name` with every setting at its default.
pub open spec fn default_model(name: Seq<char>) -> ModelConfigV {
    ModelConfigV { name, d_model: 512, d_state: 64, num_layers: 6, precision: Precision::FP16 }
}

/// Training settings at their defaults.
pub open spec fn default_train() -> TrainConfigV {
    TrainConfigV {
        lr: LearningRateV::Decimal("0.001"@),
        batch_size: 32,
        epochs: 10,
        checkpoint_interval: 500,
    }
}

/// The keys a `model` block accepts.
pub open spec fn is_model_key(key: Seq<char>) -> bool {
    key == "dim"@ || key == "state_dim"@ || key == "layers"@ || key == "precision"@
}

/// The keys a `training` block accepts.
pub open spec fn is_train_key(key: Seq<char>) -> bool {
    key == "lr"@ || key == "batch_size"@ || key == "epochs"@ || key == "checkpoint_interval"@
}

/// Applies `key: val` to a model. A value of the wrong kind leaves the
/// setting unchanged; an unknown precision name is an error.
pub open spec fn set_model_field(m: ModelConfigV, key: Seq<char>, val: TokenV) -> Result<
    ModelConfigV,
    ParseErrorV,
> {
    if key == "dim"@ {
        Ok(
            match val {
                TokenV::NumberInt(v) => ModelConfigV { d_model: v, ..m },
                _ => m,
            },
        )
    } else if key == "state_dim"@ {
        Ok(
            match val {
                TokenV::NumberInt(v) => ModelConfigV { d_state: v, ..m },
                _ => m,
            },
        )
    } else if key == "layers"@ {
        Ok(
            match val {
                TokenV::NumberInt(v) => ModelConfigV { num_layers: v, ..m },
                _ => m,
            },
        )
    } else {
        match val {
            TokenV::StringLit(p) => match precision_of(p) {
                Some(pr) => Ok(ModelConfigV { precision: pr, ..m }),
                None => Err(ParseErrorV::UnsupportedPrecision(p)),
            },
            _ => Ok(m),
        }
    }
}

/// Applies `key: val` to training settings. A learning rate must be a
/// number; other values of the wrong kind leave the setting unchanged.
pub open spec fn set_train_field(t: TrainConfigV, key: Seq<char>, val: TokenV) -> Result<
    TrainConfigV,
    ParseErrorV,
> {
    if key == "lr"@ {
        match val {
            TokenV::NumberFloat(v) => Ok(TrainConfigV { lr: LearningRateV::Decimal(v), ..t }),
            TokenV::NumberInt(v) => Ok(TrainConfigV { lr: LearningRateV::Integer(v), ..t }),
            _ => Err(ParseErrorV::InvalidLr(val)),
        }
    } else if key == "batch_size"@ {
        Ok(
            match val {
                TokenV::NumberInt(v) => TrainConfigV { batch_size: v, ..t },
                _ => t,
            },
        )
    } else if key == "epochs"@ {
        Ok(
            match val {
                TokenV::NumberInt(v) => TrainConfigV { epochs: v, ..t },
                _ => t,
            },
        )
    } else {
        Ok(
            match val {
                TokenV::NumberInt(v) => TrainConfigV { checkpoint_interval: v, ..t },
                _ => t,
            },
        )
    }
}

/// The fields of a `model` block up to its closing brace (or the end):
/// each is `key : value`, optionally followed by a comma.
pub open spec fn model_fields(s: Seq<u8>, c: Cursor, m: ModelConfigV) -> Result<
    (ModelConfigV, Cursor),
    ParseErrorV,
>
    decreases measure(s, c),
    when cursor_ok(s, c)
{
    if c.curr is BraceClose || c.curr is Eof {
        Ok((m, c))
    } else {
        let (k, c1) = bump(s, c);
        match k {
            TokenV::Ident(key) => {
                let (colon, c2) = bump(s, c1);
                if !(colon is Colon) {
                    Err(ParseErrorV::ExpectedModelColon)
                } else if !is_model_key(key) {
                    Err(ParseErrorV::UnknownModelParameter(key))
                } else {
                    let (val, c3) = bump(s, c2);
                    match set_model_field(m, key, val) {
                        Err(e) => Err(e),
                        Ok(m2) => {
                            proof {
                                lemma_bump(s, c);
                                lemma_bump(s, c1);
                                lemma_bump(s, c2);
                                lemma_skip_comma(s, c3);
                            }
                            model_fields(s, skip_comma(s, c3), m2)
                        },
                    }
                }
            },
            _ => Err(ParseErrorV::ExpectedModelFieldKey(k)),
        }
    }
}

/// The fields of a `training` block up to its closing brace (or the end).
pub open spec fn train_fields(s: Seq<u8>, c: Cursor, t: TrainConfigV) -> Result<
    (TrainConfigV, Cursor),
    ParseErrorV,
>
    decreases measure(s, c),
    when cursor_ok(s, c)
{
    if c.curr is BraceClose || c.curr is Eof {
        Ok((t, c))
    } else {
        let (k, c1) = bump(s, c);
        match k {
            TokenV::Ident(key) => {
                let (colon, c2) = bump(s, c1);
                if !(colon is Colon) {
                    Err(ParseErrorV::ExpectedTrainingColon)
                } else if !is_train_key(key) {
                    Err(ParseErrorV::UnknownTrainingParameter(key))
                } else {
                    let (val, c3) = bump(s, c2);
                    match set_train_field(t, key, val) {
                        Err(e) => Err(e),
                        Ok(t2) => {
                            proof {
                                lemma_bump(s, c);
                                lemma_bump(s, c1);
                                lemma_bump(s, c2);
                                lemma_skip_comma(s, c3);
                            }
                            train_fields(s, skip_comma(s, c3), t2)
                        },
                    }
                }
            },
            _ => Err(ParseErrorV::ExpectedTrainingFieldKey(k)),
        }
    }
}

/// The fields and closing brace of a `model` block named `name`, the cursor
/// standing just after the opening brace.
pub open spec fn model_block_body(s: Seq<u8>, c: Cursor, name: Seq<char>) -> Result<
    (ModelConfigV, Cursor),
    ParseErrorV,
> {
    match model_fields(s, c, default_model(name)) {
        Err(e) => Err(e),
        Ok((m, c4)) => {
            let (close, c5) = bump(s, c4);
            if close is BraceClose {
                Ok((m, c5))
            } else {
                Err(ParseErrorV::ExpectedModelBraceClose)
            }
        },
    }
}

/// The fields and closing brace of a `training` block, the cursor standing
/// just after the opening brace.
pub open spec fn train_block_body(s: Seq<u8>, c: Cursor) -> Result<(TrainConfigV, Cursor), ParseErrorV> {
    match train_fields(s, c, default_train()) {
        Err(e) => Err(e),
        Ok((t, c3)) => {
            let (close, c4) = bump(s, c3);
            if close is BraceClose {
                Ok((t, c4))
            } else {
                Err(ParseErrorV::ExpectedTrainingBraceClose)
            }
        },
    }
}

/// A `model NAME { fields }` block, the cursor standing on `model`.
pub open spec fn model_block(s: Seq<u8>, c: Cursor) -> Result<(ModelConfigV, Cursor), ParseErrorV> {
    let (_, c1) = bump(s, c);
    let (n, c2) = bump(s, c1);
    match n {
        TokenV::Ident(name) => {
            let (open, c3) = bump(s, c2);
            if !(open is BraceOpen) {
                Err(ParseErrorV::ExpectedModelBraceOpen)
            } else {
                model_block_body(s, c3, name)
            }
        },
        _ => Err(ParseErrorV::ExpectedModelIdent(n)),
    }
}

/// A `training { fields }` block, the cursor standing on `training`.
pub open spec fn train_block(s: Seq<u8>, c: Cursor) -> Result<(TrainConfigV, Cursor), ParseErrorV> {
    let (_, c1) = bump(s, c);
    let (open, c2) = bump(s, c1);
    if !(open is BraceOpen) {
        Err(ParseErrorV::ExpectedTrainingBraceOpen)
    } else {
        train_block_body(s, c2)
    }
}

/// The top level: a sequence of `model` and `training` blocks; a later block
/// of a kind replaces an earlier one. At the end a model is required.
pub open spec fn spec_blocks(
    s: Seq<u8>,
    c: Cursor,
    model: Option<ModelConfigV>,
    train: Option<TrainConfigV>,
) -> Result<CluxSpecV, ParseErrorV>
    decreases measure(s, c),
    when cursor_ok(s, c)
{
    if c.curr is Eof {
        match model {
            Some(m) => Ok(CluxSpecV { model: m, train }),
            None => Err(ParseErrorV::MissingModel),
        }
    } else if c.curr is KwModel {
        match model_block(s, c) {
            Err(e) => Err(e),
            Ok((m, c2)) => {
                proof {
                    lemma_model_block(s, c);
                }
                spec_blocks(s, c2, Some(m), train)
            },
        }
    } else if c.curr is KwTraining {
        match train_block(s, c) {
            Err(e) => Err(e),
            Ok((t, c2)) => {
                proof {
                    lemma_train_block(s, c);
                }
                spec_blocks(s, c2, model, Some(t))
            },
        }
    } else {
        Err(ParseErrorV::UnexpectedToken(c.curr))
    }
}

/// What parsing the UTF-8 bytes `s` of a specification yields.
pub open spec fn parse_source(s: Seq<u8>) -> Result<CluxSpecV, ParseErrorV> {
    spec_blocks(s, cursor_at(s, 0), None, None)
}

pub proof fn lemma_bump(s: Seq<u8>, c: Cursor)
    requires
        cursor_ok(s, c),
    ensures
        cursor_ok(s, bump(s, c).1),
        measure(s, bump(s, c).1) <= measure(s, c),
        !(c.curr is Eof) ==> measure(s, bump(s, c).1) < measure(s, c),
{
    lemma_lex_at_progress(s, c.pos);
    if c.curr is Eof {
        lemma_lex_at_progress(s, s.len() as int);
    }
}

pub proof fn lemma_skip_comma(s: Seq<u8>, c: Cursor)
    requires
        cursor_ok(s, c),
    ensures
        cursor_ok(s, skip_comma(s, c)),
        measure(s, skip_comma(s, c)) <= measure(s, c),
{
    lemma_bump(s, c);
}

pub proof fn lemma_model_fields(s: Seq<u8>, c: Cursor, m: ModelConfigV)
    requires
        cursor_ok(s, c),
    ensures
        model_fields(s, c, m) matches Ok((_, c2)) ==> cursor_ok(s, c2) && measure(s, c2) <= measure(
            s,
            c,
        ),
    decreases measure(s, c),
{
    if !(c.curr is BraceClose || c.curr is Eof) {
        let (k, c1) = bump(s, c);
        lemma_bump(s, c);
        let (colon, c2) = bump(s, c1);
        lemma_bump(s, c1);
        let (val, c3) = bump(s, c2);
        lemma_bump(s, c2);
        lemma_skip_comma(s, c3);
        if let TokenV::Ident(key) = k {
            if let Ok(m2) = set_model_field(m, key, val) {
                lemma_model_fields(s, skip_comma(s, c3), m2);
            }
        }
    }
}

pub proof fn lemma_train_fields(s: Seq<u8>, c: Cursor, t: TrainConfigV)
    requires
        cursor_ok(s, c),
    ensures
        train_fields(s, c, t) matches Ok((_, c2)) ==> cursor_ok(s, c2) && measure(s, c2) <= measure(
            s,
            c,
        ),
    decreases measure(s, c),
{
    if !(c.curr is BraceClose || c.curr is Eof) {
        let (k, c1) = bump(s, c);
        lemma_bump(s, c);
        let (colon, c2) = bump(s, c1);
        lemma_bump(s, c1);
        let (val, c3) = bump(s, c2);
        lemma_bump(s, c2);
        lemma_skip_comma(s, c3);
        if let TokenV::Ident(key) = k {
            if let Ok(t2) = set_train_field(t, key, val) {
                lemma_train_fields(s, skip_comma(s, c3), t2);
            }
        }
    }
}

pub proof fn lemma_model_block(s: Seq<u8>, c: Cursor)
    requires
        cursor_ok(s, c),
        !(c.curr is Eof),
    ensures
        model_block(s, c) matches Ok((_, c2)) ==> cursor_ok(s, c2) && measure(s, c2) < measure(s, c),
{
    let (_, c1) = bump(s, c);
    lemma_bump(s, c);
    let (n, c2) = bump(s, c1);
    lemma_bump(s, c1);
    let (open, c3) = bump(s, c2);
    lemma_bump(s, c2);
    if let TokenV::Ident(name) = n {
        lemma_model_fields(s, c3, default_model(name));
        if let Ok((m, c4)) = model_fields(s, c3, default_model(name)) {
            lemma_bump(s, c4);
        }
    }
}

pub proof fn lemma_train_block(s: Seq<u8>, c: Cursor)
    requires
        cursor_ok(s, c),
        !(c.curr is Eof),
    ensures
        train_block(s, c) matches Ok((_, c2)) ==> cursor_ok(s, c2) && measure(s, c2) < measure(s, c),
{
    let (_, c1) = bump(s, c);
    lemma_bump(s, c);
    let (open, c2) = bump(s, c1);
    lemma_bump(s, c1);
    lemma_train_fields(s, c2, default_train());
    if let Ok((t, c3)) = train_fields(s, c2, default_train()) {
        lemma_bump(s, c3);
    }
}

/// A parse result with `t` filling in the training settings where it has none.
pub open spec fn with_training(r: Result<CluxSpecV, ParseErrorV>, t: TrainConfigV) -> Result<
    CluxSpecV,
    ParseErrorV,
> {
    match r {
        Ok(spec) => Ok(
            CluxSpecV {
                model: spec.model,
                train: if spec.train is Some {
                    spec.train
                } else {
                    Some(t)
                },
            },
        ),
        Err(e) => Err(e),
    }
}

/// Block order does not matter for training settings: a model block never
/// clears settings read before it. Parsing the rest of a source with
/// training settings `t` already read gives what parsing it without them
/// gives, with `t` filling in where no later training block brings its own.
pub proof fn lemma_training_kept(
    s: Seq<u8>,
    c: Cursor,
    model: Option<ModelConfigV>,
    t: TrainConfigV,
)
    requires
        cursor_ok(s, c),
    ensures
        spec_blocks(s, c, model, Some(t)) == with_training(spec_blocks(s, c, model, None), t),
    decreases measure(s, c),
{
    if c.curr is Eof {
    } else if c.curr is KwModel {
        lemma_model_block(s, c);
        if let Ok((m, c2)) = model_block(s, c) {
            lemma_training_kept(s, c2, Some(m), t);
        }
    } else if c.curr is KwTraining {
        lemma_train_block(s, c);
        if let Ok((t2, c2)) = train_block(s, c) {
            lemma_training_kept(s, c2, model, t2);
            lemma_training_kept(s, c2, model, t);
        }
    }
}

/// Precision names are compared without regard to ASCII case: a string
/// names the same precision as its lowercase form, and the four names
/// denote their precisions.
pub proof fn lemma_precision_ignores_case(v: Seq<char>)
    ensures
        precision_of(v) == precision_of(ascii_lowercase(v)),
        precision_of("fp32"@) == Some(Precision::FP32),
        precision_of("fp16"@) == Some(Precision::FP16),
        precision_of("bf16"@) == Some(Precision::BF16),
        precision_of("int8"@) == Some(Precision::INT8),
        precision_of("FP32"@) == Some(Precision::FP32),
        precision_of("FP16"@) == Some(Precision::FP16),
        precision_of("BF16"@) == Some(Precision::BF16),
        precision_of("INT8"@) == Some(Precision::INT8),
{
    lemma_ascii_lowercase_idempotent(v);
    reveal_strlit("fp32");
    reveal_strlit("fp16");
    reveal_strlit("bf16");
    reveal_strlit("int8");
    reveal_strlit("FP32");
    reveal_strlit("FP16");
    reveal_strlit("BF16");
    reveal_strlit("INT8");
    assert("fp16"@[2] != "fp32"@[2]);
    assert("bf16"@[0] != "fp32"@[0] && "bf16"@[0] != "fp16"@[0]);
    assert("int8"@[0] != "fp32"@[0] && "int8"@[0] != "fp16"@[0] && "int8"@[0] != "bf16"@[0]);
    assert(ascii_lowercase("fp32"@) =~= "fp32"@);
    assert(ascii_lowercase("fp16"@) =~= "fp16"@);
    assert(ascii_lowercase("bf16"@) =~= "bf16"@);
    assert(ascii_lowercase("int8"@) =~= "int8"@);
    assert(ascii_lowercase("FP32"@) =~= "fp32"@);
    assert(ascii_lowercase("FP16"@) =~= "fp16"@);
    assert(ascii_lowercase("BF16"@) =~= "bf16"@);
    assert(ascii_lowercase("INT8"@) =~= "int8"@);
}

/// The view of an optional model.
pub open spec fn model_opt_view(o: Option<ModelConfig>) -> Option<ModelConfigV> {
    match o {
        Some(m) => Some(m@),
        None => None,
    }
}

/// The view of optional training settings.
pub open spec fn train_opt_view(o: Option<TrainConfig>) -> Option<TrainConfigV> {
    match o {
        Some(t) => Some(t@),
        None => None,
    }
}

/// A recursive-descent parser over the lexer's tokens.
pub struct Parser<'a> {
    lexer: Lexer<'a>,
    curr: Token,
}

impl<'a> Parser<'a> {
    /// The UTF-8 bytes being parsed.
    pub closed spec fn source(&self) -> Seq<u8> {
        self.lexer.source()
    }

    /// The current token and the lexer position after it.
    pub closed spec fn cursor(&self) -> Cursor {
        Cursor { curr: self.curr@, pos: self.lexer.position() }
    }

    /// The lexer is well formed and the cursor is reachable.
    pub closed spec fn wf(&self) -> bool {
        &&& self.lexer.wf()
        &&& cursor_ok(self.source(), self.cursor())
    }

    /// A parser standing on the first token of `source`.
    pub fn new(source: &'a str) -> (p: Self)
        ensures
            p.wf(),
            p.source() == source.spec_bytes(),
            p.cursor() == cursor_at(source.spec_bytes(), 0),
    {
        let mut lexer = Lexer::new(source);
        let curr = lexer.next_token();
        proof {
            lemma_lex_at_progress(lexer.source(), 0);
        }
        Parser { lexer, curr }
    }

    fn bump(&mut self) -> (t: Token)
        requires
            old(self).wf(),
        ensures
            final(self).wf(),
            final(self).source() == old(self).source(),
            (t@, final(self).cursor()) == bump(old(self).source(), old(self).cursor()),
            measure(final(self).source(), final(self).cursor()) <= measure(
                old(self).source(),
                old(self).cursor(),
            ),
            !(old(self).cursor().curr is Eof) ==> measure(final(self).source(), final(self).cursor())
                < measure(old(self).source(), old(self).cursor()),
    {
        proof {
            lemma_bump(self.source(), self.cursor());
        }
        let mut t = self.lexer.next_token();
        core::mem::swap(&mut self.curr, &mut t);
        t
    }

    fn is_curr_eof(&self) -> (b: bool)
        ensures
            b == (self.cursor().curr is Eof),
    {
        match self.curr {
            Token::Eof => true,
            _ => false,
        }
    }

    fn is_curr_block_end(&self) -> (b: bool)
        ensures
            b == (self.cursor().curr is BraceClose || self.cursor().curr is Eof),
    {
        match self.curr {
            Token::BraceClose => true,
            Token::Eof => true,
            _ => false,
        }
    }

    fn skip_comma(&mut self)
        requires
            old(self).wf(),
        ensures
            final(self).wf(),
            final(self).source() == old(self).source(),
            final(self).cursor() == skip_comma(old(self).source(), old(self).cursor()),
            measure(final(self).source(), final(self).cursor()) <= measure(
                old(self).source(),
                old(self).cursor(),
            ),
    {
        proof {
            lemma_skip_comma(self.source(), self.cursor());
        }
        match self.curr {
            Token::Comma => {
                self.bump();
            },
            _ => {},
        }
    }

    /// Parses the whole specification from the current token on.
    pub fn parse_spec(&mut self) -> (r: Result<CluxSpec, ParseError>)
        requires
            old(self).wf(),
        ensures
            final(self).source() == old(self).source(),
            match r {
                Ok(v) => spec_blocks(old(self).source(), old(self).cursor(), None, None) == Ok::<
                    CluxSpecV,
                    ParseErrorV,
                >(v@),
                Err(e) => spec_blocks(old(self).source(), old(self).cursor(), None, None) == Err::<
                    CluxSpecV,
                    ParseErrorV,
                >(e@),
            },
    {
        let ghost s = self.source();
        let ghost c0 = self.cursor();
        let mut model_config: Option<ModelConfig> = None;
        let mut train_config: Option<TrainConfig> = None;
        loop
            invariant
                self.wf(),
                self.source() == s,
                s == old(self).source(),
                c0 == old(self).cursor(),
                spec_blocks(s, self.cursor(), model_opt_view(model_config), train_opt_view(train_config))
                    == spec_blocks(s, c0, None, None),
            ensures
                self.wf(),
                self.source() == s,
                self.cursor().curr is Eof,
                spec_blocks(s, self.cursor(), model_opt_view(model_config), train_opt_view(train_config))
                    == spec_blocks(s, c0, None, None),
            decreases measure(s, self.cursor()),
        {
            if self.is_curr_eof() {
                break;
            }
            let ghost c = self.cursor();
            match self.curr {
                Token::KwModel => {
                    proof {
                        lemma_model_block(s, c);
                    }
                    match self.parse_model_block() {
                        Ok(m) => {
                            model_config = Some(m);
                        },
                        Err(e) => {
                            return Err(e);
                        },
                    }
                },
                Token::KwTraining => {
                    proof {
                        lemma_train_block(s, c);
                    }
                    match self.parse_train_block() {
                        Ok(t) => {
                            train_config = Some(t);
                        },
                        Err(e) => {
                            return Err(e);
                        },
                    }
                },
                _ => {
                    return Err(ParseError::UnexpectedToken(self.curr.duplicate()));
                },
            }
        }
        match model_config {
            Some(model) => Ok(CluxSpec { model, train: train_config }),
            None => Err(ParseError::MissingModel),
        }
    }

    fn parse_model_block(&mut self) -> (r: Result<ModelConfig, ParseError>)
        requires
            old(self).wf(),
            old(self).cursor().curr is KwModel,
        ensures
            final(self).source() == old(self).source(),
            match r {
                Ok(m) => final(self).wf() && model_block(old(self).source(), old(self).cursor()) == Ok::<
                    (ModelConfigV, Cursor),
                    ParseErrorV,
                >((m@, final(self).cursor())),
                Err(e) => model_block(old(self).source(), old(self).cursor()) == Err::<
                    (ModelConfigV, Cursor),
                    ParseErrorV,
                >(e@),
            },
    {
        let ghost s = self.source();
        self.bump();
        let name = match self.bump() {
            Token::Ident(n) => n,
            other => {
                return Err(ParseError::ExpectedModelIdent(other));
            },
        };
        match self.bump() {
            Token::BraceOpen => {},
            _ => {
                return Err(ParseError::ExpectedModelBraceOpen);
            },
        }
        let ghost c3 = self.cursor();
        let mut d_model: usize = 512;
        let mut d_state: usize = 64;
        let mut num_layers: usize = 6;
        let mut precision = Precision::FP16;
        loop
            invariant
                self.wf(),
                self.source() == s,
                s == old(self).source(),
                model_block(s, old(self).cursor()) == model_block_body(s, c3, name@),
                model_fields(
                    s,
                    self.cursor(),
                    ModelConfigV { name: name@, d_model, d_state, num_layers, precision },
                ) == model_fields(s, c3, default_model(name@)),
            ensures
                self.wf(),
                self.source() == s,
                self.cursor().curr is BraceClose || self.cursor().curr is Eof,
                model_block(s, old(self).cursor()) == model_block_body(s, c3, name@),
                model_fields(
                    s,
                    self.cursor(),
                    ModelConfigV { name: name@, d_model, d_state, num_layers, precision },
                ) == model_fields(s, c3, default_model(name@)),
            decreases measure(s, self.cursor()),
        {
            if self.is_curr_block_end() {
                break;
            }
            let key = match self.bump() {
                Token::Ident(k) => k,
                other => {
                    return Err(ParseError::ExpectedModelFieldKey(other));
                },
            };
            match self.bump() {
                Token::Colon => {},
                _ => {
                    return Err(ParseError::ExpectedModelColon);
                },
            }
            if str_equal(key.as_str(), "dim") {
                match self.bump() {
                    Token::NumberInt(v) => {
                        d_model = v;
                    },
                    _ => {},
                }
            } else if str_equal(key.as_str(), "state_dim") {
                match self.bump() {
                    Token::NumberInt(v) => {
                        d_state = v;
                    },
                    _ => {},
                }
            } else if str_equal(key.as_str(), "layers") {
                match self.bump() {
                    Token::NumberInt(v) => {
                        num_layers = v;
                    },
                    _ => {},
                }
            } else if str_equal(key.as_str(), "precision") {
                match self.bump() {
                    Token::StringLit(val) => {
                        if lowercase_equals(val.as_str(), "fp32") {
                            precision = Precision::FP32;
                        } else if lowercase_equals(val.as_str(), "fp16") {
                            precision = Precision::FP16;
                        } else if lowercase_equals(val.as_str(), "bf16") {
                            precision = Precision::BF16;
                        } else if lowercase_equals(val.as_str(), "int8") {
                            precision = Precision::INT8;
                        } else {
                            return Err(ParseError::UnsupportedPrecision(val));
                        }
                    },
                    _ => {},
                }
            } else {
                return Err(ParseError::UnknownModelParameter(key));
            }
            self.skip_comma();
        }
        match self.bump() {
            Token::BraceClose => Ok(ModelConfig { name, d_model, d_state, num_layers, precision }),
            _ => Err(ParseError::ExpectedModelBraceClose),
        }
    }

    fn parse_train_block(&mut self) -> (r: Result<TrainConfig, ParseError>)
        requires
            old(self).wf(),
            old(self).cursor().curr is KwTraining,
        ensures
            final(self).source() == old(self).source(),
            match r {
                Ok(t) => final(self).wf() && train_block(old(self).source(), old(self).cursor()) == Ok::<
                    (TrainConfigV, Cursor),
                    ParseErrorV,
                >((t@, final(self).cursor())),
                Err(e) => train_block(old(self).source(), old(self).cursor()) == Err::<
                    (TrainConfigV, Cursor),
                    ParseErrorV,
                >(e@),
            },
    {
        let ghost s = self.source();
        self.bump();
        match self.bump() {
            Token::BraceOpen => {},
            _ => {
                return Err(ParseError::ExpectedTrainingBraceOpen);
            },
        }
        let ghost c2 = self.cursor();
        let mut lr = LearningRate::Decimal(String::from_str("0.001"));
        let mut batch_size: usize = 32;
        let mut epochs: usize = 10;
        let mut checkpoint_interval: usize = 500;
        loop
            invariant
                self.wf(),
                self.source() == s,
                s == old(self).source(),
                train_block(s, old(self).cursor()) == train_block_body(s, c2),
                train_fields(
                    s,
                    self.cursor(),
                    TrainConfigV { lr: lr@, batch_size, epochs, checkpoint_interval },
                ) == train_fields(s, c2, default_train()),
            ensures
                self.wf(),
                self.source() == s,
                self.cursor().curr is BraceClose || self.cursor().curr is Eof,
                train_block(s, old(self).cursor()) == train_block_body(s, c2),
                train_fields(
                    s,
                    self.cursor(),
                    TrainConfigV { lr: lr@, batch_size, epochs, checkpoint_interval },
                ) == train_fields(s, c2, default_train()),
            decreases measure(s, self.cursor()),
        {
            if self.is_curr_block_end() {
                break;
            }
            let key = match self.bump() {
                Token::Ident(k) => k,
                other => {
                    return Err(ParseError::ExpectedTrainingFieldKey(other));
                },
            };
            match self.bump() {
                Token::Colon => {},
                _ => {
                    return Err(ParseError::ExpectedTrainingColon);
                },
            }
            if str_equal(key.as_str(), "lr") {
                match self.bump() {
                    Token::NumberFloat(v) => {
                        lr = LearningRate::Decimal(v);
                    },
                    Token::NumberInt(v) => {
                        lr = LearningRate::Integer(v);
                    },
                    other => {
                        return Err(ParseError::InvalidLr(other));
                    },
                }
            } else if str_equal(key.as_str(), "batch_size") {
                match self.bump() {
                    Token::NumberInt(v) => {
                        batch_size = v;
                    },
                    _ => {},
                }
            } else if str_equal(key.as_str(), "epochs") {
                match self.bump() {
                    Token::NumberInt(v) => {
                        epochs = v;
                    },
                    _ => {},
                }
            } else if str_equal(key.as_str(), "checkpoint_interval") {
                match self.bump() {
                    Token::NumberInt(v) => {
                        checkpoint_interval = v;
                    },
                    _ => {},
                }
            } else {
                return Err(ParseError::UnknownTrainingParameter(key));
            }
            self.skip_comma();
        }
        match self.bump() {
            Token::BraceClose => Ok(TrainConfig { lr, batch_size, epochs, checkpoint_interval }),
            _ => Err(ParseError::ExpectedTrainingBraceClose),
        }
    }
}

/// Parses a CLUX specification.
pub fn parse(source: &str) -> (r: Result<CluxSpec, ParseError>)
    ensures
        match r {
            Ok(v) => parse_source(source.spec_bytes()) == Ok::<CluxSpecV, ParseErrorV>(v@),
            Err(e) => parse_source(source.spec_bytes()) == Err::<CluxSpecV, ParseErrorV>(e@),
        },
{
    let mut parser = Parser::new(source);
    parser.parse_spec()
}

} // verus!
