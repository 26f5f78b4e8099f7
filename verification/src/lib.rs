//! Draws maps as SVG documents.
//!
//! A map is made of [`content`], and [`map`] makes it.  First the content is loaded ([`load`], for
//! lines of latitude and longitude [`graticule`], and for what comes out of shapefiles [`layers`],
//! [`records`], [`labels`] and [`markers`]), its curves are downsampled ([`thin`], [`decimate`]), and
//! everything is put in its place on the map ([`place`]), where curves may have to be refined
//! ([`curve`]).  Then it is written down ([`decimals`], [`drawing`], [`document`], with the help of
//! [`markup`] and [`attributes`]).  [`cities`] chooses which cities are worth a place on the map.
//!
//! Coordinates are held as the bits of floating-point numbers ([`number`]).  The library compares
//! them; whoever uses it does the arithmetic.  What is taken on trust of other crates stands in
//! [`outside`].

#![allow(non_snake_case)]

pub mod attributes;
pub mod cities;
pub mod content;
pub mod curve;
pub mod decimals;
pub mod decimate;
pub mod document;
pub mod drawing;
pub mod errors;
pub mod geometry;
pub mod graticule;
pub mod labels;
pub mod layers;
pub mod load;
pub mod map;
pub mod markers;
pub mod markup;
pub mod number;
pub mod outside;
pub mod patterns;
pub mod place;
pub mod records;
pub mod text;
pub mod thin;
