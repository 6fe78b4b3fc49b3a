pub mod pattern;
pub mod quantifier;
pub mod quantify;
pub mod quantify_vec;

pub use pattern::build_patterns;
pub use pattern::DynPatternTerminal;
pub use pattern::Pattern;
pub use pattern::PatternGroup;
pub use pattern::PatternGroupType;
pub use pattern::PatternMatch;
pub use pattern::PatternSymbol;
pub use pattern::PatternTerminal;
pub use quantifier::Quantifier;
pub use quantifier::QuantifierParseError;
pub use quantify::PatternNode;
pub use quantify::Quantify;
