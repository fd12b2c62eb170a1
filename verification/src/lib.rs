//! The verified core of an offline ray tracer.
//!
//! A ray tracer computes with real numbers, and it decides: which faces a
//! mesh file declares, where a transform applies, which material covers an
//! object, what a ray has to be tested against, which hit is the nearest,
//! which rows a worker renders. This library holds the deciding part, and
//! every function in it is proved to do what its contract says. Numbers
//! appear only as bit patterns that are compared, never computed with; the
//! arithmetic is the caller's.
//!
//! * `text`: lines, words and numerals of a text file;
//! * `scalar`: the order of single-precision numbers, from their bits;
//! * `math`, `color`: clamping, and the bytes of an output pixel;
//! * `mesh`: the mesh file format, faces and the faces at each vertex;
//! * `bounding_box`: boxes around points, and the slab test;
//! * `primitive`: which roots of the sphere equation are hits;
//! * `bvh`: the hierarchy of bounding boxes over the faces of a mesh;
//! * `scene`: the scene tree, its preparation and its traversal by a ray;
//! * `ray_tracer`: the choice of the nearest hit;
//! * `render`: bands of image rows and their assembly into the image.
pub mod bounding_box;
pub mod bvh;
pub mod color;
pub mod math;
pub mod mesh;
pub mod primitive;
pub mod ray_tracer;
pub mod render;
pub mod scalar;
pub mod scene;
pub mod text;
