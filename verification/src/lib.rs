pub mod allocation;
pub mod bodies;
pub mod callable;
pub mod calls;
pub mod captures;
pub mod collections;
pub mod constants;
pub mod defined;
pub mod definitions;
pub mod diagnostics;
pub mod edges;
pub mod effects;
pub mod entries;
pub mod evaluate;
pub mod facts;
pub mod flow;
pub mod flows;
pub mod graphs;
pub mod ids;
pub mod inspect;
pub mod known;
pub mod lambdas;
pub mod lattice;
pub mod listed;
pub mod locals;
pub mod lookups;
pub mod methods;
pub mod model;
pub mod nesting;
pub mod node_types;
pub mod nodes;
pub mod order;
pub mod origins;
pub mod parameters;
pub mod path;
pub mod plans;
pub mod position;
pub mod program;
pub mod project;
pub mod promises;
pub mod records;
pub mod references;
pub mod reports;
pub mod scope;
pub mod scopes;
pub mod settled;
pub mod shown;
pub mod sites;
pub mod sort;
pub mod sorted;
pub mod states;
pub mod steps;
pub mod symbols;
pub mod syntax;
pub mod tables;
pub mod text;
pub mod trees;
pub mod typed;
pub mod types;
pub mod uses;
pub mod values;
pub mod words;
pub mod written;
