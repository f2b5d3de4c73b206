pub mod path_tracer;
pub mod renderer_state;
pub mod renderer_uniforms;
pub mod sobol_generator;
