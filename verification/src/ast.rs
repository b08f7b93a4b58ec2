//! Abstract syntax of a CLUX architecture specification.

use vstd::prelude::*;

use crate::token::{Token, TokenV};

verus! {

/// Numeric precision of a model.
#[derive(Debug, Clone, Copy, PartialEq, Eq, Structural)]
pub enum Precision {
    FP32,
    FP16,
    BF16,
    INT8,
}

impl Default for Precision {
    fn default() -> (p: Self)
        ensures
            p == Precision::FP16,
    {
        Precision::FP16
    }
}

/// The `model` block.
#[derive(Debug, Clone, PartialEq)]
pub struct ModelConfig {
    pub name: String,
    pub d_model: usize,
    pub d_state: usize,
    pub num_layers: usize,
    pub precision: Precision,
}

/// A learning rate as written in the source: the text of a decimal literal,
/// or an integer.
#[derive(Debug, Clone, PartialEq)]
pub enum LearningRate {
    Decimal(String),
    Integer(usize),
}

/// The `training` block.
#[derive(Debug, Clone, PartialEq)]
pub struct TrainConfig {
    pub lr: LearningRate,
    pub batch_size: usize,
    pub epochs: usize,
    pub checkpoint_interval: usize,
}

/// A whole specification: a model and, optionally, its training settings.
#[derive(Debug, Clone, PartialEq)]
pub struct CluxSpec {
    pub model: ModelConfig,
    pub train: Option<TrainConfig>,
}

/// Why a specification was rejected.
#[derive(Debug, Clone, PartialEq)]
pub enum ParseError {
    /// A token other than `model`, `training` or the end at the top level.
    UnexpectedToken(Token),
    /// No `model` block.
    MissingModel,
    ExpectedModelIdent(Token),
    ExpectedModelBraceOpen,
    ExpectedModelFieldKey(Token),
    ExpectedModelColon,
    UnsupportedPrecision(String),
    UnknownModelParameter(String),
    ExpectedModelBraceClose,
    ExpectedTrainingBraceOpen,
    ExpectedTrainingFieldKey(Token),
    ExpectedTrainingColon,
    InvalidLr(Token),
    UnknownTrainingParameter(String),
    ExpectedTrainingBraceClose,
}

pub struct ModelConfigV {
    pub name: Seq<char>,
    pub d_model: usize,
    pub d_state: usize,
    pub num_layers: usize,
    pub precision: Precision,
}

pub enum LearningRateV {
    Decimal(Seq<char>),
    Integer(usize),
}

pub struct TrainConfigV {
    pub lr: LearningRateV,
    pub batch_size: usize,
    pub epochs: usize,
    pub checkpoint_interval: usize,
}

pub struct CluxSpecV {
    pub model: ModelConfigV,
    pub train: Option<TrainConfigV>,
}

pub enum ParseErrorV {
    UnexpectedToken(TokenV),
    MissingModel,
    ExpectedModelIdent(TokenV),
    ExpectedModelBraceOpen,
    ExpectedModelFieldKey(TokenV),
    ExpectedModelColon,
    UnsupportedPrecision(Seq<char>),
    UnknownModelParameter(Seq<char>),
    ExpectedModelBraceClose,
    ExpectedTrainingBraceOpen,
    ExpectedTrainingFieldKey(TokenV),
    ExpectedTrainingColon,
    InvalidLr(TokenV),
    UnknownTrainingParameter(Seq<char>),
    ExpectedTrainingBraceClose,
}

impl View for ModelConfig {
    type V = ModelConfigV;

    open spec fn view(&self) -> ModelConfigV {
        ModelConfigV {
            name: self.name@,
            d_model: self.d_model,
            d_state: self.d_state,
            num_layers: self.num_layers,
            precision: self.precision,
        }
    }
}

impl View for LearningRate {
    type V = LearningRateV;

    open spec fn view(&self) -> LearningRateV {
        match self {
            LearningRate::Decimal(s) => LearningRateV::Decimal(s@),
            LearningRate::Integer(n) => LearningRateV::Integer(*n),
        }
    }
}

impl View for TrainConfig {
    type V = TrainConfigV;

    open spec fn view(&self) -> TrainConfigV {
        TrainConfigV {
            lr: self.lr@,
            batch_size: self.batch_size,
            epochs: self.epochs,
            checkpoint_interval: self.checkpoint_interval,
        }
    }
}

impl View for CluxSpec {
    type V = CluxSpecV;

    open spec fn view(&self) -> CluxSpecV {
        CluxSpecV {
            model: self.model@,
            train: match self.train {
                Some(t) => Some(t@),
                None => None,
            },
        }
    }
}

impl View for ParseError {
    type V = ParseErrorV;

    open spec fn view(&self) -> ParseErrorV {
        match self {
            ParseError::UnexpectedToken(t) => ParseErrorV::UnexpectedToken(t@),
            ParseError::MissingModel => ParseErrorV::MissingModel,
            ParseError::ExpectedModelIdent(t) => ParseErrorV::ExpectedModelIdent(t@),
            ParseError::ExpectedModelBraceOpen => ParseErrorV::ExpectedModelBraceOpen,
            ParseError::ExpectedModelFieldKey(t) => ParseErrorV::ExpectedModelFieldKey(t@),
            ParseError::ExpectedModelColon => ParseErrorV::ExpectedModelColon,
            ParseError::UnsupportedPrecision(s) => ParseErrorV::UnsupportedPrecision(s@),
            ParseError::UnknownModelParameter(s) => ParseErrorV::UnknownModelParameter(s@),
            ParseError::ExpectedModelBraceClose => ParseErrorV::ExpectedModelBraceClose,
            ParseError::ExpectedTrainingBraceOpen => ParseErrorV::ExpectedTrainingBraceOpen,
            ParseError::ExpectedTrainingFieldKey(t) => ParseErrorV::ExpectedTrainingFieldKey(t@),
            ParseError::ExpectedTrainingColon => ParseErrorV::ExpectedTrainingColon,
            ParseError::InvalidLr(t) => ParseErrorV::InvalidLr(t@),
            ParseError::UnknownTrainingParameter(s) => ParseErrorV::UnknownTrainingParameter(s@),
            ParseError::ExpectedTrainingBraceClose => ParseErrorV::ExpectedTrainingBraceClose,
        }
    }
}

} // verus!
