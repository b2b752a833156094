//! The processing plan: from a configuration and the program text to the
//! formatted program, or to the parse error.
//!
//! Reading the source (standard input or a file) and writing the result are
//! left to the caller: a processor works on a source given as text.
use vstd::prelude::*;
use crate::ast::{Block, Node, block_model};
use crate::grammar::program;
use crate::parser::ParseError;
use crate::pretty::fmt_program;

verus! {

/// Where the program text comes from.
#[derive(Debug)]
pub enum Source {
    Input,
    File { filename: String },
    Literal { source: String },
}

/// What is produced from the program.
#[derive(Debug, Clone, Copy, PartialEq, Eq, Structural)]
pub enum Target {
    /// The program in canonical text.
    Assembly,
}

#[derive(Debug)]
pub struct Config {
    pub source: Source,
    /// The targets asked for, each once.
    pub targets: Vec<Target>,
}

impl Config {
    /// Reads standard input, produces nothing.
    pub fn new() -> (r: Config)
        ensures
            r.source is Input,
            r.targets@.len() == 0,
    {
        Config { source: Source::Input, targets: Vec::new() }
    }

    pub fn source_file(&mut self, filename: &str)
        ensures
            final(self).source matches Source::File { filename: f } && f@ == filename@,
            final(self).targets@ == old(self).targets@,
    {
        self.source = Source::File { filename: String::from_str(filename) };
    }

    pub fn source_stdin(&mut self)
        ensures
            final(self).source is Input,
            final(self).targets@ == old(self).targets@,
    {
        self.source = Source::Input;
    }

    /// Takes the program from `source` itself.
    pub fn source_str(&mut self, source: &str)
        ensures
            final(self).source matches Source::Literal { source: s } && s@ == source@,
            final(self).targets@ == old(self).targets@,
    {
        self.source = Source::Literal { source: String::from_str(source) };
    }

    /// Asks for `target` too (once, however often it is asked for).
    pub fn target(&mut self, target: Target)
        ensures
            final(self).targets@.to_set() == old(self).targets@.to_set().insert(target),
            old(self).targets@.contains(target) ==> final(self).targets@ == old(self).targets@,
            !old(self).targets@.contains(target) ==> final(self).targets@ == old(self).targets@.push(target),
    {
        if !self.targets(target) {
            self.targets.push(target);
            proof {
                assert(final(self).targets@.to_set() =~= old(self).targets@.to_set().insert(target)) by {
                    assert forall|t: Target| final(self).targets@.to_set().contains(t)
                        <==> old(self).targets@.to_set().insert(target).contains(t) by {
                        if final(self).targets@.contains(t) && t != target {
                            let k = choose|k: int| 0 <= k < final(self).targets@.len() && final(self).targets@[k] == t;
                            assert(old(self).targets@[k] == t);
                        }
                        if old(self).targets@.contains(t) {
                            let k = choose|k: int| 0 <= k < old(self).targets@.len() && old(self).targets@[k] == t;
                            assert(final(self).targets@[k] == t);
                        }
                        if t == target {
                            assert(final(self).targets@[old(self).targets@.len() as int] == t);
                        }
                    }
                }
            }
        } else {
            proof {
                assert(old(self).targets@.to_set().insert(target) =~= old(self).targets@.to_set());
            }
        }
    }

    /// Whether `target` was asked for.
    pub fn targets(&self, target: Target) -> (r: bool)
        ensures
            r == self.targets@.contains(target),
    {
        let mut i: usize = 0;
        while i < self.targets.len()
            invariant
                i <= self.targets@.len(),
                forall|k: int| 0 <= k < i ==> self.targets@[k] != target,
            decreases self.targets@.len() - i,
        {
            if self.targets[i] == target {
                proof {
                    assert(self.targets@[i as int] == target);
                }
                return true;
            }
            i = i + 1;
        }
        false
    }
}

/// A step of processing, holding what that step has.
#[derive(Debug)]
pub struct Processor<S> {
    pub state: S,
}

/// Nothing done yet.
#[derive(Debug)]
pub struct New {}

/// Configured: the configuration is known.
#[derive(Debug)]
pub struct Configured {
    pub config: Config,
}

impl Configured {
    pub fn new(config: Config) -> (r: Configured)
        ensures
            r.config == config,
    {
        Configured { config }
    }
}

/// The program text is at hand.
#[derive(Debug)]
pub struct Sourced {
    pub config: Config,
    pub source: String,
}

impl Sourced {
    pub fn new(source: String, config: Config) -> (r: Sourced)
        ensures
            r.config == config,
            r.source == source,
    {
        Sourced { config, source }
    }
}

/// The program is parsed.
#[derive(Debug)]
pub struct Parsed {
    pub config: Config,
    pub ast: Node<Block>,
}

impl Parsed {
    pub fn new(ast: Node<Block>, config: Config) -> (r: Parsed)
        ensures
            r.ast == ast,
            r.config == config,
    {
        Parsed { config, ast }
    }
}

/// Finished: the canonical text when it was asked for.
#[derive(Debug)]
pub struct Done {
    pub output: Option<String>,
}

impl Done {
    pub fn new() -> (r: Done)
        ensures
            r.output is None,
    {
        Done { output: None }
    }
}

/// Failed: with the parse error, or with none when the source text was not at hand.
#[derive(Debug)]
pub struct Error {
    pub parse_error: Option<ParseError>,
}

impl Error {
    pub fn new() -> (r: Error)
        ensures
            r.parse_error is None,
    {
        Error { parse_error: None }
    }
}

impl Processor<New> {
    pub fn new() -> (r: Processor<New>) {
        Processor { state: New {} }
    }

    pub fn configure(self, config: Config) -> (r: Result<Processor<Configured>, Processor<Error>>)
        ensures
            r matches Ok(p) && p.state.config == config,
    {
        Ok(Processor { state: Configured::new(config) })
    }
}

impl Processor<Configured> {
    pub fn config(self) -> (r: Config)
        ensures
            r == self.state.config,
    {
        self.state.config
    }

    /// Hands over the program text, read from where the configuration says.
    pub fn source(self, source: String) -> (r: Processor<Sourced>)
        ensures
            r.state.config == self.state.config,
            r.state.source == source,
    {
        Processor { state: Sourced::new(source, self.state.config) }
    }
}

impl Processor<Sourced> {
    pub fn parse(self) -> (r: Result<Processor<Parsed>, Processor<Error>>)
        ensures
            match r {
                Ok(p) => program(self.state.source@) == Some(block_model(p.state.ast.node))
                    && p.state.config == self.state.config,
                Err(e) => program(self.state.source@) is None && e.state.parse_error is Some,
            },
    {
        let Sourced { config, source } = self.state;
        match crate::parse(source.as_str()) {
            Ok(ast) => Ok(Processor { state: Parsed::new(ast, config) }),
            Err(err) => Err(Processor { state: Error { parse_error: Some(err) } }),
        }
    }
}

impl Processor<Parsed> {
    /// Produces the targets asked for.
    pub fn target(self) -> (r: Processor<Done>)
        ensures
            match r.state.output {
                Some(t) => self.state.config.targets@.contains(Target::Assembly)
                    && t@ == fmt_program(block_model(self.state.ast.node)),
                None => !self.state.config.targets@.contains(Target::Assembly),
            },
    {
        if self.state.config.targets(Target::Assembly) {
            Processor { state: Done { output: Some(crate::pretty::format(&self.state.ast)) } }
        } else {
            Processor { state: Done { output: None } }
        }
    }
}

/// The plan that parses the program and writes it back in canonical form.
pub struct FormatAssembly {}

impl FormatAssembly {
    /// Runs the plan on a configured processor whose source is given as text
    /// (`Source::Literal`); a source still to be read fails with no parse error.
    pub fn run(processor: Processor<Configured>) -> (r: Result<Processor<Done>, Processor<Error>>)
        ensures
            match processor.state.config.source {
                Source::Literal { source } => match r {
                    Ok(d) => program(source@) is Some && match d.state.output {
                        Some(t) => processor.state.config.targets@.contains(Target::Assembly)
                            && t@ == fmt_program(program(source@)->0),
                        None => !processor.state.config.targets@.contains(Target::Assembly),
                    },
                    Err(e) => program(source@) is None && e.state.parse_error is Some,
                },
                _ => r matches Err(e) && e.state.parse_error is None,
            },
    {
        let config = processor.config();
        let text = match &config.source {
            Source::Literal { source } => source.clone(),
            _ => {
                return Err(Processor { state: Error::new() });
            },
        };
        let sourced = Processor { state: Sourced::new(text, config) };
        match sourced.parse() {
            Ok(parsed) => Ok(parsed.target()),
            Err(e) => Err(e),
        }
    }
}

} // verus!
