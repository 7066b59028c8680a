//! Observation ⊣ Control: the verified core of the observe–predict–control loop.
//!
//! The integer and control parts of the library live here: the grounding of
//! quantised values into finite bit sets (`computability`), the nine-step agent
//! loop and its scheduling decisions (`agent_loop`), and the system dimensions
//! (`plato`).
pub mod agent_loop;
pub mod computability;
pub mod plato;
