//! Annotates genomic query regions with the best-ranked overlapping feature
//! of a reference annotation catalogue.
pub mod interval;
pub mod text;
pub mod record;
pub mod attributes;
pub mod sweep;
pub mod rank;
pub mod sorted;
pub mod contig;
pub mod sync;
