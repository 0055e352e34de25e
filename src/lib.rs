pub mod counting;
pub mod text;

pub mod graph;
pub mod paths;
pub mod floyd;
pub mod centrality;
pub mod connected;
pub mod command;
pub mod export;

pub mod caesar;
pub mod collection;
pub mod fruits;
pub mod queue;
pub mod tally;
pub mod words;
